use nusantara::codec::{from_slice, to_vec, Codec, CodecError, Fault};
use nusantara::digest::Digest;
use nusantara::ledger::{Account, Block, BlockHeader};
use nusantara::storage::cf::{
    Cf, CF_ACCOUNTS, CF_ACCOUNT_INDEX, CF_ADDRESS_SIGNATURES, CF_BANK_HASHES, CF_BLOCKS,
    CF_DEFAULT, CF_SLOT_META,
};
use nusantara::storage::database::{Database, Walk};
use nusantara::storage::error::StorageError;
use nusantara::storage::keys::{
    account_key, address_sig_key, full_block_key, owner_index_key, shred_key, slot_key,
};
use nusantara::storage::memory::MemoryDatabase;
use nusantara::storage::shred::DataShred;
use nusantara::storage::slashing::slash_proof_key;
use nusantara::storage::slot_meta::SlotMeta;
use nusantara::storage::snapshot_archive::{
    archive_bytes, archive_from_bytes, bootstrap_from_snapshot, check_snapshot_size,
    cleanup_partial_snapshot_restore, create_snapshot, find_latest_snapshot_file,
    restore_snapshot, snapshot_slot_of, MAX_SNAPSHOT_SIZE, SNAPSHOT_RESTORE_MARKER,
};
use nusantara::storage::store::Storage;
use nusantara::storage::transaction::{TransactionStatus, TransactionStatusMeta};
use nusantara::storage::write_batch::StorageWriteBatch;
use std::collections::HashSet;

/// A digest that tells labels apart.
fn hash(label: &[u8]) -> Digest {
    let mut bytes = [0u8; 64];
    for (i, b) in bytes.iter_mut().enumerate() {
        let mut acc = 131u32.wrapping_add(i as u32 * 2_654_435_761);
        for (j, &x) in label.iter().enumerate() {
            acc = acc.rotate_left(5).wrapping_mul(16_777_619) ^ (x as u32 + j as u32);
        }
        *b = (acc ^ (acc >> 8) ^ (acc >> 16) ^ (acc >> 24)) as u8;
    }
    Digest::new(bytes)
}

fn temp_storage() -> Storage<MemoryDatabase> {
    Storage::new(MemoryDatabase::new())
}

fn account(lamports: u64, owner: &[u8]) -> Account {
    Account::new(lamports, hash(owner))
}

fn lamports(storage: &Storage<MemoryDatabase>, address: &Digest) -> Option<u64> {
    storage.get_account(address).unwrap().map(|a| a.lamports)
}

fn header(slot: u64) -> BlockHeader {
    BlockHeader {
        slot,
        parent_slot: slot.saturating_sub(1),
        parent_hash: hash(b"parent"),
        block_hash: hash(b"block"),
        timestamp: -5,
        validator: hash(b"validator"),
        transaction_count: 0,
        merkle_root: Digest::zero(),
        poh_hash: Digest::zero(),
        bank_hash: Digest::zero(),
        state_root: Digest::zero(),
    }
}

fn block(slot: u64) -> Block {
    Block { header: header(slot), transactions: Vec::new(), batches: Vec::new() }
}

fn meta(slot: u64) -> SlotMeta {
    SlotMeta {
        slot,
        parent_slot: slot.saturating_sub(1),
        block_time: Some(7),
        num_data_shreds: 1,
        num_code_shreds: 0,
        is_connected: true,
        completed: true,
    }
}

fn shred(slot: u64, index: u32) -> DataShred {
    DataShred { slot, index, parent_offset: 1, data: vec![index as u8; 3], flags: 0 }
}

// The index of accounts

#[test]
fn rewind_lets_accounts_be_as_they_were() {
    let mut storage = temp_storage();
    let (a, b, c) = (hash(b"a"), hash(b"b"), hash(b"c"));
    for (slot, n) in [(1, 10), (5, 50), (9, 90)] {
        storage.put_account(&a, slot, &account(n, b"owner")).unwrap();
    }
    storage.put_account(&b, 2, &account(2, b"owner")).unwrap();
    storage.put_account(&c, 8, &account(8, b"owner")).unwrap();
    // One account goes back, one was not there yet, one stays.
    assert_eq!(storage.rewind_account_index_to_slot(6).unwrap(), 2);
    assert_eq!(lamports(&storage, &a), Some(50));
    assert_eq!(lamports(&storage, &b), Some(2));
    assert_eq!(lamports(&storage, &c), None);
    assert_eq!(storage.rewind_account_index_to_slot(6).unwrap(), 0);
    // The versions themselves are still there.
    assert_eq!(storage.get_account_at_slot(&a, 9).unwrap().unwrap().lamports, 90);
}

#[test]
fn rewind_follows_a_fork() {
    let mut storage = temp_storage();
    let a = hash(b"a");
    for (slot, n) in [(3, 30), (10, 100), (11, 110), (12, 120)] {
        storage.put_account(&a, slot, &account(n, b"owner")).unwrap();
    }
    let fork: HashSet<u64> = [9, 11].into_iter().collect();
    assert_eq!(storage.rewind_account_index_for_ancestry(&fork).unwrap(), 1);
    assert_eq!(lamports(&storage, &a), Some(110));
    // What is at or before the least slot of the ancestry is final.
    let other: HashSet<u64> = [9, 13].into_iter().collect();
    assert_eq!(storage.rewind_account_index_for_ancestry(&other).unwrap(), 1);
    assert_eq!(lamports(&storage, &a), Some(30));
}

#[test]
fn cleanup_removes_what_a_slot_wrote() {
    let mut storage = temp_storage();
    let (a, b) = (hash(b"a"), hash(b"b"));
    storage.put_account(&a, 4, &account(40, b"owner")).unwrap();
    storage.put_account(&a, 7, &account(70, b"owner")).unwrap();
    storage.put_account(&b, 7, &account(71, b"owner")).unwrap();
    storage.cleanup_failed_slot(7, 6, &[a, b]).unwrap();
    assert_eq!(lamports(&storage, &a), Some(40));
    assert_eq!(lamports(&storage, &b), None);
    assert_eq!(storage.get_account_at_slot(&a, 7).unwrap(), None);
    assert_eq!(storage.get_account_at_slot(&b, 7).unwrap(), None);
}

#[test]
fn cleanup_follows_a_fork() {
    let mut storage = temp_storage();
    let a = hash(b"a");
    for (slot, n) in [(4, 40), (5, 50), (7, 70)] {
        storage.put_account(&a, slot, &account(n, b"owner")).unwrap();
    }
    let fork: HashSet<u64> = [4, 6].into_iter().collect();
    storage.cleanup_failed_slot_for_ancestry(7, &[a], &fork).unwrap();
    assert_eq!(lamports(&storage, &a), Some(40));
    assert_eq!(storage.get_account_at_slot(&a, 7).unwrap(), None);
    assert_eq!(storage.get_account_at_slot(&a, 5).unwrap().unwrap().lamports, 50);
}

#[test]
fn partitions_share_out_the_accounts() {
    let mut storage = temp_storage();
    for i in 0..40u8 {
        storage.put_account(&hash(&[i, 9]), 1, &account(i as u64, b"owner")).unwrap();
    }
    let all = storage.get_all_accounts().unwrap();
    assert_eq!(all.len(), 40);
    let mut parts = Vec::new();
    for p in 0..3 {
        let part = storage.get_accounts_in_partition(p, 3).unwrap();
        assert!(part.iter().all(|(a, _)| a.as_bytes()[0] as u64 % 3 == p));
        parts.extend(part);
    }
    assert_eq!(parts.len(), 40);
    assert!(all.iter().all(|row| parts.contains(row)));
}

#[test]
fn a_limit_of_zero_gives_nothing() {
    let mut storage = temp_storage();
    let a = hash(b"a");
    storage.put_account(&a, 4, &account(40, b"owner")).unwrap();
    storage.put_account(&a, 5, &account(50, b"owner")).unwrap();
    storage.put_address_signature(&a, 4, 0, &hash(b"tx")).unwrap();
    assert_eq!(storage.get_account_history(&a, 0).unwrap(), vec![]);
    assert_eq!(storage.get_account_history(&a, 1).unwrap(), vec![(5, account(50, b"owner"))]);
    assert_eq!(storage.get_signatures_for_address(&a, 0).unwrap(), vec![]);
    assert_eq!(storage.get_accounts_by_owner(&hash(b"owner"), Some(0)).unwrap(), vec![]);
    assert_eq!(storage.get_accounts_by_program(&hash(b"owner"), Some(0)).unwrap(), vec![]);
}

#[test]
fn rewind_searches_all_versions() {
    let mut storage = temp_storage();
    let (a, b) = (hash(b"a"), hash(b"b"));
    storage.put_account(&a, 3, &account(30, b"owner")).unwrap();
    storage.put_account(&b, 3, &account(31, b"owner")).unwrap();
    for slot in 1000..1600 {
        storage.put_account(&a, slot, &account(slot, b"owner")).unwrap();
        storage.put_account(&b, slot, &account(slot, b"owner")).unwrap();
    }
    let fork: HashSet<u64> = [5, 2000].into_iter().collect();
    assert_eq!(storage.rewind_account_index_for_ancestry(&fork).unwrap(), 2);
    assert_eq!(lamports(&storage, &a), Some(30));
    storage.cleanup_failed_slot(1599, 10, &[b]).unwrap();
    assert_eq!(lamports(&storage, &b), Some(31));
    assert_eq!(storage.get_account_history(&b, 2000).unwrap().len(), 600);
}

#[test]
fn cleanup_undoes_a_write() {
    let mut storage = temp_storage();
    let (a, b) = (hash(b"a"), hash(b"b"));
    storage.put_account(&a, 3, &account(30, b"owner")).unwrap();
    storage.put_account(&a, 6, &account(60, b"owner")).unwrap();
    storage.put_account(&b, 6, &account(61, b"owner")).unwrap();
    let before = (
        storage.get_all_accounts().unwrap(),
        storage.get_account_history(&a, 9).unwrap(),
        storage.get_account_at_slot(&a, 7).unwrap(),
    );
    storage.put_account(&a, 7, &account(70, b"owner")).unwrap();
    assert_eq!(lamports(&storage, &a), Some(70));
    storage.cleanup_failed_slot(7, 6, &[a]).unwrap();
    let after = (
        storage.get_all_accounts().unwrap(),
        storage.get_account_history(&a, 9).unwrap(),
        storage.get_account_at_slot(&a, 7).unwrap(),
    );
    assert_eq!(before, after);
}

#[test]
fn lists_are_read_up_to_their_limit() {
    let mut storage = temp_storage();
    let owner = hash(b"owner");
    let mut all: Vec<Digest> = (0..30u8).map(|i| hash(&[i, 1])).collect();
    for a in &all {
        storage.put_account(a, 1, &account(1, b"owner")).unwrap();
    }
    all.sort_by(|x, y| x.as_bytes().cmp(y.as_bytes()));
    // Accounts that are gone do not count.
    for a in &all[3..9] {
        storage.delete_cf(CF_ACCOUNT_INDEX, a.as_bytes()).unwrap();
    }
    let found = storage.get_accounts_by_owner(&owner, Some(7)).unwrap();
    let want: Vec<Digest> = all[..3].iter().chain(&all[9..13]).copied().collect();
    assert_eq!(found.iter().map(|x| x.0).collect::<Vec<Digest>>(), want);
    assert_eq!(storage.get_accounts_by_program(&owner, Some(24)).unwrap().len(), 24);
    assert_eq!(storage.get_accounts_by_program(&owner, Some(99)).unwrap().len(), 24);
}

#[test]
fn deleting_no_block_changes_nothing() {
    let mut storage = temp_storage();
    storage.put_slot_meta(&meta(8)).unwrap();
    storage.delete_block(8, |_| hash(b"tx")).unwrap();
    assert_eq!(storage.get_slot_meta(8).unwrap(), Some(meta(8)));
    storage.put_block_header(&header(8)).unwrap();
    storage.delete_block(8, |_| hash(b"tx")).unwrap();
    assert_eq!(storage.get_slot_meta(8).unwrap(), None);
}

#[test]
fn prepared_writes_are_those_that_are_made() {
    let mut storage = temp_storage();
    let a = hash(b"a");
    storage.put_account(&a, 1, &account(10, b"old")).unwrap();
    let prepared = storage.prepare_account_write(&a, 2, &account(20, b"new")).unwrap();
    assert_eq!(lamports(&storage, &a), Some(10));
    storage.write(&prepared).unwrap();
    assert_eq!(lamports(&storage, &a), Some(20));
    assert_eq!(storage.get_accounts_by_owner(&hash(b"old"), None).unwrap(), vec![]);
    assert_eq!(
        storage.get_accounts_by_owner(&hash(b"new"), None).unwrap(),
        vec![(a, account(20, b"new"))]
    );
}

// Damaged rows

#[test]
fn damaged_rows_are_errors() {
    let mut storage = temp_storage();
    let a = hash(b"a");
    storage.put_cf(CF_ACCOUNT_INDEX, a.as_bytes(), &[1, 2, 3]).unwrap();
    assert!(matches!(storage.get_account(&a), Err(StorageError::Corruption(_))));
    storage.put_cf(CF_ACCOUNTS, &account_key(&a, 3), &[1, 2, 3]).unwrap();
    assert_eq!(
        storage.get_account_at_slot(&a, 3).unwrap_err(),
        StorageError::Deserialization(CodecError::Malformed(Fault::Short))
    );
    let mut long = to_vec(&account(1, b"o")).unwrap();
    long.push(0);
    storage.put_cf(CF_ACCOUNTS, &account_key(&a, 3), &long).unwrap();
    assert_eq!(
        storage.get_account_at_slot(&a, 3).unwrap_err().describe(),
        "borsh deserialization error: Not all bytes read"
    );
    storage.put_cf(CF_BANK_HASHES, &slot_key(2), &[5; 63]).unwrap();
    assert!(matches!(storage.get_bank_hash(2), Err(StorageError::Corruption(_))));
    storage.put_cf(CF_ADDRESS_SIGNATURES, &address_sig_key(&a, 1, 1), &[5; 63]).unwrap();
    assert_eq!(
        storage.get_signatures_for_address(&a, 9).unwrap_err().describe(),
        "data corruption: invalid tx hash in value"
    );
    storage.put_cf(CF_SLOT_META, &slot_key(2), &[]).unwrap();
    assert!(storage.get_slot_meta(2).is_err());
    assert_eq!(StorageError::RocksDb("x".to_string()).describe(), "rocksdb error: x");
    assert_eq!(StorageError::CfNotFound("y").describe(), "column family not found: y");
    assert_eq!(StorageError::Io("z".to_string()).describe(), "I/O error: z");
    assert_eq!(
        StorageError::Serialization(CodecError::TooLong).describe(),
        "borsh serialization error: invalid data"
    );
}

// Lists

#[test]
fn lists_are_in_the_order_of_their_keys() {
    let mut storage = temp_storage();
    for index in [7u32, 300, 0, 2] {
        storage.put_data_shred(&shred(5, index)).unwrap();
    }
    storage.put_data_shred(&shred(6, 1)).unwrap();
    let found = storage.get_data_shreds_for_slot(5).unwrap();
    assert_eq!(found.iter().map(|s| s.index).collect::<Vec<u32>>(), vec![0, 2, 7, 300]);
    let a = hash(b"a");
    for (slot, i) in [(3, 2), (256, 0), (3, 9)] {
        storage.put_address_signature(&a, slot, i, &hash(&[i as u8])).unwrap();
    }
    let sigs = storage.get_signatures_for_address(&a, 10).unwrap();
    assert_eq!(
        sigs,
        vec![(256, 0, hash(&[0])), (3, 9, hash(&[9])), (3, 2, hash(&[2]))]
    );
}

#[test]
fn keys_are_laid_out_in_order() {
    let (a, b) = (hash(b"a"), hash(b"b"));
    assert_eq!(slot_key(0x0102), [0, 0, 0, 0, 0, 0, 1, 2]);
    assert_eq!(shred_key(1, 0x0304)[8..], [0, 0, 3, 4]);
    assert!(shred_key(1, u32::MAX) < shred_key(2, 0));
    assert!(address_sig_key(&a, 1, u32::MAX) < address_sig_key(&a, 2, 0));
    assert!(account_key(&a, 255) < account_key(&a, 256));
    assert_eq!(&full_block_key(9)[..6], b"block_");
    assert!(full_block_key(9) < full_block_key(10));
    assert_eq!(&owner_index_key(&a, &b)[64..], b.as_bytes());
    assert_eq!(slash_proof_key(&a, 4), account_key(&a, 4));
}

#[test]
fn walks_go_both_ways() {
    let mut storage = temp_storage();
    for k in [&b"aa"[..], b"ab", b"abc", b"b"] {
        storage.put_cf(CF_DEFAULT, k, k).unwrap();
    }
    let walk = |prefix: &[u8], start: Option<&[u8]>, key_len: Option<usize>, reverse: bool, limit: usize| {
        let w = Walk {
            cf: CF_DEFAULT,
            prefix: prefix.to_vec(),
            start: start.map(|s| s.to_vec()),
            key_len,
            reverse,
            limit,
        };
        storage.db.scan(&w).unwrap().into_iter().map(|r| r.key).collect::<Vec<Vec<u8>>>()
    };
    assert_eq!(walk(b"a", None, None, false, 9), vec![b"aa".to_vec(), b"ab".to_vec(), b"abc".to_vec()]);
    assert_eq!(walk(b"", None, None, true, 2), vec![b"b".to_vec(), b"abc".to_vec()]);
    assert_eq!(walk(b"a", Some(b"ab"), None, true, 9), vec![b"ab".to_vec(), b"aa".to_vec()]);
    assert_eq!(walk(b"a", Some(b"ab"), Some(2), false, 9), vec![b"ab".to_vec()]);
    assert!(walk(b"c", None, None, false, 9).is_empty());
}

#[test]
fn column_families_have_names_of_their_own() {
    let all = Cf::all();
    for i in 0..all.len() {
        for j in 0..i {
            assert_ne!(all[i].name(), all[j].name());
        }
    }
    assert!(all.contains(&CF_BLOCKS));
    assert_eq!(CF_DEFAULT.name(), "default");
}

#[test]
fn batches_apply_in_order() {
    let mut storage = temp_storage();
    let mut first = StorageWriteBatch::new();
    first.put(CF_DEFAULT, b"a".to_vec(), b"1".to_vec());
    first.put(CF_DEFAULT, b"b".to_vec(), b"1".to_vec());
    first.put(CF_DEFAULT, b"c".to_vec(), b"1".to_vec());
    let mut second = StorageWriteBatch::new();
    second.delete_range(CF_DEFAULT, b"a".to_vec(), b"c".to_vec());
    second.put(CF_DEFAULT, b"b".to_vec(), b"2".to_vec());
    first.merge(&second);
    assert_eq!((first.len(), second.len()), (5, 2));
    let mut whole = StorageWriteBatch::new();
    whole.merge_owned(first);
    assert!(!whole.is_empty());
    storage.write(&whole).unwrap();
    assert_eq!(storage.get_cf(CF_DEFAULT, b"a").unwrap(), None);
    assert_eq!(storage.get_cf(CF_DEFAULT, b"b").unwrap(), Some(b"2".to_vec()));
    assert_eq!(storage.get_cf(CF_DEFAULT, b"c").unwrap(), Some(b"1".to_vec()));
    storage.delete_cf(CF_DEFAULT, b"c").unwrap();
    assert_eq!(storage.get_cf(CF_DEFAULT, b"c").unwrap(), None);
}

// Blocks and slots

#[test]
fn finalized_slot_is_read_back() {
    let mut storage = temp_storage();
    storage.finalize_slot(&block(8), &hash(b"bank"), &meta(8)).unwrap();
    assert_eq!(storage.get_block_header(8).unwrap(), Some(header(8)));
    assert_eq!(storage.get_bank_hash(8).unwrap(), Some(hash(b"bank")));
    assert_eq!(storage.get_slot_meta(8).unwrap(), Some(meta(8)));
    assert_eq!(storage.get_latest_slot().unwrap(), Some(8));
}

#[test]
fn deleted_block_leaves_no_rows() {
    let mut storage = temp_storage();
    storage.put_block(&block(8)).unwrap();
    storage.put_block(&block(9)).unwrap();
    assert_eq!(storage.get_block(8).unwrap(), Some(block(8)));
    storage.delete_block(8, |_| hash(b"tx")).unwrap();
    assert_eq!(storage.get_block(8).unwrap(), None);
    assert!(!storage.has_block_header(8).unwrap());
    assert_eq!(storage.get_block(9).unwrap(), Some(block(9)));
}

#[test]
fn purge_stops_at_the_slot() {
    let mut storage = temp_storage();
    for slot in [1, 2, 3] {
        storage.put_slot_meta(&meta(slot)).unwrap();
        storage.put_data_shred(&shred(slot, 4)).unwrap();
        let status = TransactionStatusMeta {
            slot,
            status: TransactionStatus::Success,
            fee: 1,
            pre_balances: vec![1],
            post_balances: vec![0],
            compute_units_consumed: 1,
        };
        storage.put_transaction_status(&hash(&[slot as u8]), &status).unwrap();
        storage.put_address_signature(&hash(b"a"), slot, 0, &hash(&[slot as u8])).unwrap();
    }
    assert!(storage.purge_below(3).unwrap() > 0);
    for slot in [1, 2] {
        assert_eq!(storage.get_slot_meta(slot).unwrap(), None);
        assert_eq!(storage.get_data_shred(slot, 4).unwrap(), None);
        assert_eq!(storage.get_transaction_status(&hash(&[slot as u8])).unwrap(), None);
    }
    assert_eq!(storage.get_slot_meta(3).unwrap(), Some(meta(3)));
    assert_eq!(storage.get_data_shred(3, 4).unwrap(), Some(shred(3, 4)));
    assert!(storage.get_transaction_status(&hash(&[3])).unwrap().is_some());
    assert_eq!(storage.get_signatures_for_address(&hash(b"a"), 9).unwrap().len(), 1);
}

// Snapshots

#[test]
fn snapshot_is_restored() {
    let mut storage = temp_storage();
    for i in 0..5u8 {
        storage.put_account(&hash(&[i]), 3, &account(i as u64, b"owner")).unwrap();
    }
    let archive = create_snapshot(&mut storage, 30, hash(b"bank"), 99).unwrap();
    assert_eq!(archive.manifest.account_count, 5);
    assert_eq!(storage.get_latest_snapshot().unwrap(), Some(archive.manifest.clone()));
    let bytes = archive_bytes(&archive).unwrap();
    assert_eq!(archive_from_bytes(&bytes).unwrap(), archive);
    assert!(archive_from_bytes(&bytes[1..]).is_err());

    let mut fresh = temp_storage();
    restore_snapshot(&mut fresh, &archive).unwrap();
    for i in 0..5u8 {
        assert_eq!(lamports(&fresh, &hash(&[i])), Some(i as u64));
        assert!(fresh.get_account_at_slot(&hash(&[i]), 30).unwrap().is_some());
    }
    assert!(fresh.is_root(30).unwrap());
    assert_eq!(fresh.get_bank_hash(30).unwrap(), Some(hash(b"bank")));
    assert_eq!(fresh.get_snapshot(30).unwrap(), Some(archive.manifest.clone()));
    assert!(!cleanup_partial_snapshot_restore(&mut fresh).unwrap());

    let mut other = temp_storage();
    bootstrap_from_snapshot(&mut other, &archive).unwrap();
    assert_eq!(other.get_all_accounts().unwrap(), fresh.get_all_accounts().unwrap());
    assert!(!other.is_root(30).unwrap());
}

#[test]
fn broken_off_restore_is_noticed() {
    let mut storage = temp_storage();
    storage.put_cf(CF_DEFAULT, &SNAPSHOT_RESTORE_MARKER, &[1]).unwrap();
    assert!(cleanup_partial_snapshot_restore(&mut storage).unwrap());
    assert_eq!(storage.get_cf(CF_DEFAULT, b"snapshot_restore_in_progress").unwrap(), None);
    assert!(!cleanup_partial_snapshot_restore(&mut storage).unwrap());
}

#[test]
fn snapshot_files_by_name_and_size() {
    assert_eq!(snapshot_slot_of(b"snapshot-120.bin"), Some(120));
    assert_eq!(snapshot_slot_of(b"snapshot-.bin"), None);
    assert_eq!(snapshot_slot_of(b"snapshot-12a.bin"), None);
    assert_eq!(snapshot_slot_of(b"snapshot-18446744073709551616.bin"), None);
    assert_eq!(snapshot_slot_of(b"snapshot-5.tmp"), None);
    let names: Vec<Vec<u8>> =
        [&b"notes"[..], b"snapshot-7.bin", b"snapshot-30.bin", b"snapshot-4.bin"]
            .iter()
            .map(|n| n.to_vec())
            .collect();
    assert_eq!(find_latest_snapshot_file(&names), Some(2));
    assert_eq!(find_latest_snapshot_file(&names[..1]), None);
    assert!(check_snapshot_size(MAX_SNAPSHOT_SIZE).is_ok());
    assert_eq!(
        check_snapshot_size(MAX_SNAPSHOT_SIZE + 1).unwrap_err().describe(),
        "data corruption: snapshot file too large: 10737418241 bytes exceeds 10737418240 byte limit"
    );
}

// Layouts

/// The layouts of integers, strings and lists are those of borsh.
#[test]
fn layouts_are_those_of_borsh() {
    assert_eq!(to_vec(&0x0102u16).unwrap(), borsh::to_vec(&0x0102u16).unwrap());
    assert_eq!(to_vec(&0x0102_0304u32).unwrap(), borsh::to_vec(&0x0102_0304u32).unwrap());
    assert_eq!(to_vec(&u64::MAX).unwrap(), borsh::to_vec(&u64::MAX).unwrap());
    assert_eq!(to_vec(&-2i64).unwrap(), borsh::to_vec(&-2i64).unwrap());
    assert_eq!(from_slice::<i64>(&to_vec(&-2i64).unwrap()).unwrap(), -2);
    assert_eq!(from_slice::<u16>(&[2, 1]).unwrap(), 0x0102);
    let text = "h\u{e9}llo".to_string();
    assert_eq!(to_vec(&text).unwrap(), borsh::to_vec(&text).unwrap());
    assert_eq!(from_slice::<String>(&to_vec(&text).unwrap()).unwrap(), text);
    assert!(from_slice::<String>(&[1, 0, 0, 0, 0xFF]).is_err());
    let list: Vec<u64> = vec![1, 2, 3];
    assert_eq!(to_vec(&list).unwrap(), borsh::to_vec(&list).unwrap());
    assert_eq!(to_vec(&Some(7u32)).unwrap(), borsh::to_vec(&Some(7u32)).unwrap());
    assert_eq!(to_vec(&(1u64, true)).unwrap(), borsh::to_vec(&(1u64, true)).unwrap());
    assert!(from_slice::<u32>(&[1, 2, 3]).is_err());
    assert_eq!(from_slice::<u32>(&[1, 2, 3, 4, 5]).unwrap_err(), CodecError::TrailingBytes);
}

/// The text for bytes that do not read as a value, after a look at what borsh says of them.
fn refusal<T: Codec + borsh::BorshDeserialize>(bytes: &[u8]) -> String {
    let told = match from_slice::<T>(bytes) {
        Ok(_) => panic!("the bytes read as a value"),
        Err(e) => e.describe(),
    };
    match borsh::from_slice::<T>(bytes) {
        Ok(_) => panic!("borsh reads a value"),
        Err(e) => assert_eq!(told, e.to_string()),
    }
    told
}

#[test]
fn misreadings_are_told_as_borsh_tells_them() {
    assert_eq!(refusal::<u64>(&[1, 2, 3]), "Unexpected length of input");
    assert_eq!(refusal::<u8>(&[1, 2]), "Not all bytes read");
    assert_eq!(refusal::<bool>(&[]), "Unexpected length of input");
    assert_eq!(refusal::<bool>(&[2]), "Invalid bool representation: 2");
    assert_eq!(
        refusal::<Option<u8>>(&[200, 1]),
        "Invalid Option representation: 200. The first byte must be 0 or 1"
    );
    assert_eq!(refusal::<Option<u16>>(&[1, 0]), "Unexpected length of input");
    // The first fault counts.
    assert_eq!(refusal::<(u8, (bool, bool))>(&[9, 7, 8]), "Invalid bool representation: 7");
    assert_eq!(refusal::<(bool, u64)>(&[1, 7]), "Unexpected length of input");
    assert_eq!(refusal::<Vec<bool>>(&[3, 0, 0, 0, 1, 0, 5, 6]), "Invalid bool representation: 5");
    assert_eq!(refusal::<Vec<bool>>(&[3, 0, 0, 0, 1, 0]), "Unexpected length of input");
    assert_eq!(refusal::<Vec<u8>>(&[3, 0, 0]), "Unexpected length of input");
    assert_eq!(
        refusal::<String>(&[3, 0, 0, 0, b'a', 0xFF, b'b']),
        "invalid utf-8 sequence of 1 bytes from index 1"
    );
    assert_eq!(
        refusal::<(String, u8)>(&[3, 0, 0, 0, b'a', 0xE2, 0x82, 1]),
        "incomplete utf-8 byte sequence from index 1"
    );
    let kind = std::io::Error::from(std::io::ErrorKind::InvalidData).to_string();
    assert_eq!(CodecError::TooLong.describe(), kind);
    assert_eq!(
        from_slice::<TransactionStatus>(&[2]).unwrap_err().describe(),
        "Unexpected variant tag: 2"
    );
}
