use nusantara::codec::{from_slice, to_vec};
use nusantara::digest::Digest;
use nusantara::ledger::{Block, BlockHeader, CompiledInstruction, Message, Transaction};
use nusantara::merkle::MerkleProof;
use nusantara::storage::shred::{CodeShred, DataShred};
use nusantara::turbine::deshredder::Deshredder;
use nusantara::turbine::erasure::ErasureCoder;
use nusantara::turbine::error::TurbineError;
use nusantara::turbine::merkle_shred::{
    build_batch_header, MerkleCodeShred, MerkleDataShred, MerkleShred, ShredBatchHeader,
    LAST_SHRED_FLAG,
};
use nusantara::turbine::retransmit_stage::{
    HeaderOutcome, RetransmitStage, ShredOutcome, Signer, Skip, RETRANSMIT_SLOT_HORIZON,
};
use nusantara::turbine::shred_collector::ShredCollector;
use nusantara::turbine::shredder::{
    ShredBatch, Shredder, FEC_GROUP_SIZE, FEC_RATE_PERCENT, MAX_DATA_PER_SHRED,
};
use nusantara::turbine::turbine_tree::{ClusterNode, TurbineTree};

const MAX_SHREDS_PER_SLOT: u32 = 2048;

const MAX_TRACKED_SLOTS: usize = 128;

fn collector() -> ShredCollector {
    ShredCollector::new(MAX_SHREDS_PER_SLOT, MAX_TRACKED_SLOTS)
}

/// A digest that tells labels apart.
fn hash(label: &[u8]) -> Digest {
    let mut bytes = [0u8; 64];
    for (i, b) in bytes.iter_mut().enumerate() {
        let mut acc = 131u32.wrapping_add(i as u32 * 2_654_435_761);
        for (j, &x) in label.iter().enumerate() {
            acc = acc.rotate_left(5).wrapping_mul(16_777_619) ^ (x as u32 + j as u32);
        }
        *b = (acc ^ (acc >> 8) ^ (acc >> 16) ^ (acc >> 24)) as u8;
    }
    Digest::new(bytes)
}

fn leaf_hash(bytes: &Vec<u8>) -> Digest {
    hash(bytes)
}

fn hash_pair(left: &Digest, right: &Digest) -> Digest {
    let mut bytes = left.as_bytes().to_vec();
    bytes.extend_from_slice(right.as_bytes());
    hash(&bytes)
}

/// Root and proofs of the tree over the leaves; an odd one out moves up as it is.
fn merkle_tree(leaves: &Vec<Digest>) -> (Digest, Vec<Option<MerkleProof>>) {
    let mut proofs: Vec<MerkleProof> = leaves
        .iter()
        .map(|_| MerkleProof { hashes: Vec::new(), path: Vec::new() })
        .collect();
    let mut level: Vec<Digest> = leaves.clone();
    let mut at: Vec<usize> = (0..leaves.len()).collect();
    while level.len() > 1 {
        for (leaf, place) in at.iter_mut().enumerate() {
            let sibling = *place ^ 1;
            if sibling < level.len() {
                proofs[leaf].hashes.push(level[sibling]);
                proofs[leaf].path.push((*place & 1) as u8);
            }
            *place /= 2;
        }
        level = level
            .chunks(2)
            .map(|pair| if pair.len() == 2 { hash_pair(&pair[0], &pair[1]) } else { pair[0] })
            .collect();
    }
    (level[0], proofs.into_iter().map(Some).collect())
}

/// Whether the proof leads from the hash of the bytes to the root.
fn proof_ok(proof: &MerkleProof, bytes: &Vec<u8>, root: &Digest) -> bool {
    let mut node = hash(bytes);
    for (sibling, side) in proof.hashes.iter().zip(&proof.path) {
        node = if *side == 0 { hash_pair(&node, sibling) } else { hash_pair(sibling, &node) };
    }
    node == *root
}

/// A key pair of this test: a signature is a hash of the key and the message.
struct Keypair {
    id: u8,
}

impl Keypair {
    fn generate(id: u8) -> Self {
        Keypair { id }
    }

    fn address(&self) -> Digest {
        hash(&[self.id])
    }

    fn sign(&self, message: &[u8]) -> Vec<u8> {
        let mut bytes = vec![self.id];
        bytes.extend_from_slice(message);
        hash(&bytes).as_bytes().to_vec()
    }

    fn signed(&self, signature: &Vec<u8>, root: &Digest) -> bool {
        *signature == self.sign(root.as_bytes())
    }
}

fn shred_block(block: &Block, parent_slot: u64, kp: &Keypair) -> Result<ShredBatch, TurbineError> {
    Shredder::shred_block(block, parent_slot, kp.address(), leaf_hash, merkle_tree, |root| {
        kp.sign(root.as_bytes())
    })
}

fn test_block_after(slot: u64, parent_slot: u64) -> Block {
    Block {
        header: BlockHeader {
            slot,
            parent_slot,
            parent_hash: hash(b"parent"),
            block_hash: hash(b"block"),
            timestamp: 1000,
            validator: hash(b"validator"),
            transaction_count: 0,
            merkle_root: Digest::zero(),
            poh_hash: Digest::zero(),
            bank_hash: Digest::zero(),
            state_root: Digest::zero(),
        },
        transactions: Vec::new(),
        batches: Vec::new(),
    }
}

fn test_block(slot: u64) -> Block {
    test_block_after(slot, slot.saturating_sub(1))
}

#[test]
fn shred_deshred_roundtrip() {
    let kp = Keypair::generate(1);
    let original = test_block(1);

    let batch = shred_block(&original, 0, &kp).unwrap();
    let data_shreds: Vec<DataShred> = batch
        .data_shreds
        .iter()
        .map(|s| s.shred.clone())
        .collect();

    let recovered = Deshredder::deshred(&data_shreds).unwrap();
    assert_eq!(original, recovered);
}

#[test]
fn empty_shreds_error() {
    let result = Deshredder::deshred(&[]);
    assert!(result.is_err());
}

#[test]
fn non_contiguous_indices_error() {
    let shreds = vec![
        DataShred {
            slot: 1,
            index: 0,
            parent_offset: 1,
            data: vec![0],
            flags: 0,
        },
        DataShred {
            slot: 1,
            index: 2, // gap!
            parent_offset: 1,
            data: vec![0],
            flags: 0x01,
        },
    ];
    let result = Deshredder::deshred(&shreds);
    assert!(result.is_err());
}

#[test]
fn shredder_config_values() {
    assert_eq!(MAX_DATA_PER_SHRED, 1228);
    assert_eq!(FEC_RATE_PERCENT, 33);
    assert_eq!(FEC_GROUP_SIZE, 32);
}

#[test]
fn shred_small_block() {
    let kp = Keypair::generate(1);
    let block = test_block_after(1, 0);
    let batch = shred_block(&block, 0, &kp).unwrap();

    assert!(!batch.data_shreds.is_empty());
    let last = batch.data_shreds.last().unwrap();
    assert!(last.is_last());

    // All data shreds should have valid Merkle proofs
    for shred in &batch.data_shreds {
        assert!(shred.verify(&batch.header.merkle_root, proof_ok));
        assert_eq!(shred.slot(), 1);
    }

    // All code shreds should have valid Merkle proofs
    for shred in &batch.code_shreds {
        assert!(shred.verify(&batch.header.merkle_root, proof_ok));
    }

    // Header signature should verify
    assert!(batch.header.verify(|s, root| kp.signed(s, root)));
}

#[test]
fn shred_indices_sequential() {
    let kp = Keypair::generate(1);
    let block = test_block_after(5, 4);
    let batch = shred_block(&block, 4, &kp).unwrap();

    for (i, shred) in batch.data_shreds.iter().enumerate() {
        assert_eq!(shred.index(), i as u32);
    }
}

#[test]
fn header_counts_match() {
    let kp = Keypair::generate(1);
    let block = test_block_after(1, 0);
    let batch = shred_block(&block, 0, &kp).unwrap();

    assert_eq!(batch.header.num_data_shreds, batch.data_shreds.len() as u32);
    assert_eq!(batch.header.num_code_shreds, batch.code_shreds.len() as u32);
}

#[test]
fn wrong_key_fails_header_verification() {
    let kp = Keypair::generate(1);
    let kp2 = Keypair::generate(2);
    let block = test_block_after(1, 0);
    let batch = shred_block(&block, 0, &kp).unwrap();
    assert!(!batch.header.verify(|s, root| kp2.signed(s, root)));
}

#[test]
fn parent_offset_overflow_returns_error() {
    let kp = Keypair::generate(1);
    // slot - parent_slot > u16::MAX
    let slot = 100_000u64;
    let parent_slot = 0u64;
    let block = test_block_after(slot, parent_slot);
    let result = shred_block(&block, parent_slot, &kp);
    assert!(result.is_err());
    let msg = result.unwrap_err().describe();
    assert!(msg.contains("parent_offset overflow"), "got: {msg}");
}

#[test]
fn parent_slot_greater_than_slot_returns_error() {
    let kp = Keypair::generate(1);
    let block = test_block_after(5, 3);
    // Pass parent_slot=10 > slot=5
    let result = shred_block(&block, 10, &kp);
    assert!(result.is_err());
}

#[test]
fn fec_group_size_from_config() {
    // Verify FEC_GROUP_SIZE constant is correctly read from config.toml
    assert_eq!(FEC_GROUP_SIZE, 32);
}

#[test]
fn data_shred_borsh_roundtrip() {
    let shred = DataShred {
        slot: 5,
        index: 3,
        parent_offset: 1,
        data: vec![99u8; 50],
        flags: 0x01,
    };
    let leader = hash(b"leader");
    let merkle_data = MerkleDataShred::new(shred, leader);

    let bytes = to_vec(&merkle_data).unwrap();
    let decoded: MerkleDataShred = from_slice(&bytes).unwrap();
    assert_eq!(merkle_data, decoded);
    assert_eq!(merkle_data.shred_hash(leaf_hash), decoded.shred_hash(leaf_hash));
}

#[test]
fn code_shred_borsh_roundtrip() {
    let shred = CodeShred {
        slot: 1,
        index: 0,
        num_data_shreds: 10,
        num_code_shreds: 4,
        position: 0,
        data: vec![0xAB; 100],
    };
    let leader = hash(b"leader");
    let merkle_code = MerkleCodeShred::new(shred, leader);

    let bytes = to_vec(&merkle_code).unwrap();
    let decoded: MerkleCodeShred = from_slice(&bytes).unwrap();
    assert_eq!(merkle_code, decoded);
}

#[test]
fn proof_verification() {
    let kp = Keypair::generate(1);
    let shred = DataShred {
        slot: 1,
        index: 0,
        parent_offset: 1,
        data: vec![42u8; 100],
        flags: 0,
    };
    let mut merkle_data = MerkleDataShred::new(shred, kp.address());
    let leaf = merkle_data.shred_hash(leaf_hash);

    let (root, proofs) = merkle_tree(&vec![leaf]);
    let proof = proofs[0].clone().unwrap();
    merkle_data.merkle_proof = proof;

    assert!(merkle_data.verify(&root, proof_ok));
}

#[test]
fn wrong_root_fails_verification() {
    let kp = Keypair::generate(1);
    let shred = DataShred {
        slot: 1,
        index: 0,
        parent_offset: 1,
        data: vec![42u8; 100],
        flags: 0,
    };
    let mut merkle_data = MerkleDataShred::new(shred, kp.address());
    let leaf = merkle_data.shred_hash(leaf_hash);

    let (root, proofs) = merkle_tree(&vec![leaf]);
    let proof = proofs[0].clone().unwrap();
    merkle_data.merkle_proof = proof;

    let wrong_root = hash(b"wrong");
    assert!(!merkle_data.verify(&wrong_root, proof_ok));
}

#[test]
fn shred_hash_determinism() {
    let shred = DataShred {
        slot: 1,
        index: 0,
        parent_offset: 1,
        data: vec![42u8; 100],
        flags: 0,
    };
    let leader = hash(b"leader");
    let a = MerkleDataShred::new(shred.clone(), leader);
    let b = MerkleDataShred::new(shred, leader);
    assert_eq!(a.shred_hash(leaf_hash), b.shred_hash(leaf_hash));
}

#[test]
fn batch_header_verify() {
    let kp = Keypair::generate(1);
    let root = hash(b"merkle_root");
    let header = ShredBatchHeader {
        slot: 1,
        leader: kp.address(),
        merkle_root: root,
        signature: kp.sign(root.as_bytes()),
        num_data_shreds: 5,
        num_code_shreds: 2,
    };
    assert!(header.verify(|s, root| kp.signed(s, root)));

    let kp2 = Keypair::generate(2);
    assert!(!header.verify(|s, root| kp2.signed(s, root)));
}

#[test]
fn merkle_shred_enum_roundtrip() {
    let shred = DataShred {
        slot: 5,
        index: 3,
        parent_offset: 1,
        data: vec![99u8; 50],
        flags: 0x01,
    };
    let leader = hash(b"leader");
    let merkle_data = MerkleDataShred::new(shred, leader);
    let ms = MerkleShred::Data(merkle_data);
    let bytes = to_vec(&ms).unwrap();
    let decoded: MerkleShred = from_slice(&bytes).unwrap();
    assert_eq!(ms, decoded);
}

/// Build a single-leaf code-shred batch with a valid Merkle proof and a
/// signed header — exercises the code-shred buffer paths without needing
/// a fat block to trigger FEC.
fn make_code_batch(kp: &Keypair, slot: u64) -> (ShredBatchHeader, MerkleCodeShred) {
    let code_storage = CodeShred {
        slot,
        index: 0,
        num_data_shreds: 1,
        num_code_shreds: 1,
        position: 0,
        data: vec![0xCDu8; 32],
    };
    let mut code = MerkleCodeShred::new(code_storage, kp.address());
    let leaf = code.shred_hash(leaf_hash);
    let (root, proofs) = merkle_tree(&vec![leaf]);
    code.merkle_proof = proofs[0].clone().unwrap();
    let header = ShredBatchHeader {
        slot,
        leader: kp.address(),
        merkle_root: root,
        signature: kp.sign(root.as_bytes()),
        num_data_shreds: 0,
        num_code_shreds: 1,
    };
    (header, code)
}

#[test]
fn collect_all_shreds_assembles_block() {
    let kp = Keypair::generate(1);
    let block = test_block(1);
    let batch = shred_block(&block, 0, &kp).unwrap();
    let mut collector = collector();

    // Insert header first
    collector.insert_header(batch.header.clone(), proof_ok);

    let mut result = None;
    for shred in &batch.data_shreds {
        if let Some(assembled) = collector.insert_data_shred(shred, proof_ok) {
            result = Some(assembled);
        }
    }

    assert!(result.is_some());
    assert_eq!(result.unwrap(), block);
}

#[test]
fn incomplete_slot_returns_none() {
    let kp = Keypair::generate(1);
    let block = test_block(1);
    let batch = shred_block(&block, 0, &kp).unwrap();

    if batch.data_shreds.len() > 1 {
        let mut collector = collector();
        // Insert header so is_complete() can potentially return true
        collector.insert_header(batch.header.clone(), proof_ok);
        for shred in &batch.data_shreds[..batch.data_shreds.len() - 1] {
            assert!(collector.insert_data_shred(shred, proof_ok).is_none());
        }
    }
}

#[test]
fn missing_shreds_detection() {
    let kp = Keypair::generate(1);
    let block = test_block(1);
    let batch = shred_block(&block, 0, &kp).unwrap();
    let mut collector = collector();

    if batch.data_shreds.len() > 2 {
        collector.insert_data_shred(&batch.data_shreds[0], proof_ok);
        collector.insert_data_shred(batch.data_shreds.last().unwrap(), proof_ok);

        let missing = collector.missing_shreds(1);
        assert!(!missing.is_empty());
    }
}

#[test]
fn stored_slot_skips_insertion() {
    let kp = Keypair::generate(1);
    let block = test_block(1);
    let batch = shred_block(&block, 0, &kp).unwrap();
    let mut collector = collector();

    collector.mark_slot_stored(1);
    assert!(collector.is_slot_stored(1));

    for shred in &batch.data_shreds {
        assert!(collector.insert_data_shred(shred, proof_ok).is_none());
    }

    assert!(!collector.has_slot(1));
}

#[test]
fn stored_slot_skips_repair_request() {
    let mut collector = collector();
    collector.mark_slot_stored(5);

    collector.request_slot_repair(5);
    assert!(!collector.has_slot(5));
}

#[test]
fn rejects_shred_above_max_index() {
    let kp = Keypair::generate(1);
    let mut collector = collector();

    let shred = DataShred {
        slot: 1,
        index: MAX_SHREDS_PER_SLOT,
        parent_offset: 1,
        data: vec![0u8; 10],
        flags: 0,
    };
    let merkle = MerkleDataShred::new(shred, kp.address());
    assert!(collector.insert_data_shred(&merkle, proof_ok).is_none());
}

#[test]
fn accepts_shred_within_limit() {
    let kp = Keypair::generate(1);
    let mut collector = collector();

    let shred = DataShred {
        slot: 1,
        index: 0,
        parent_offset: 1,
        data: vec![0u8; 10],
        flags: 0x01,
    };
    let merkle = MerkleDataShred::new(shred, kp.address());
    let _ = collector.insert_data_shred(&merkle, proof_ok);
    assert!(collector.has_slot(1) || collector.is_slot_stored(1));
}

#[test]
fn cleanup_evicts_old_stored_slots() {
    let mut collector = collector();
    collector.mark_slot_stored(10);
    collector.mark_slot_stored(50);
    collector.mark_slot_stored(90);

    collector.cleanup_old_slots(100, 50);

    assert!(!collector.is_slot_stored(10));
    assert!(collector.is_slot_stored(50));
    assert!(collector.is_slot_stored(90));
}

#[test]
fn header_insert_and_lookup() {
    let kp = Keypair::generate(1);
    let root = hash(b"root");
    let header = ShredBatchHeader {
        slot: 5,
        leader: kp.address(),
        merkle_root: root,
        signature: kp.sign(root.as_bytes()),
        num_data_shreds: 10,
        num_code_shreds: 3,
    };
    let mut collector = collector();
    collector.insert_header(header, proof_ok);

    assert!(collector.has_header(5));
    assert_eq!(collector.get_merkle_root(5), Some(root));
    assert!(!collector.has_header(6));
}

/// Shreds arriving before the header must be buffered but must NOT trigger
/// block assembly. Assembly should only happen after the header arrives
/// and all buffered shreds pass retroactive Merkle verification.
#[test]
fn shreds_before_header_waits_for_header() {
    let kp = Keypair::generate(1);
    let block = test_block(1);
    let batch = shred_block(&block, 0, &kp).unwrap();
    let mut collector = collector();

    // Insert ALL shreds without header first — no block should be assembled
    for shred in &batch.data_shreds {
        let result = collector.insert_data_shred(shred, proof_ok);
        assert!(
            result.is_none(),
            "block assembly must not happen without header"
        );
    }

    // Shreds are buffered
    assert!(collector.has_slot(1));
    assert_eq!(collector.shred_count(1), batch.data_shreds.len());
    // Slot should NOT be marked complete (header missing)
    assert!(!collector.is_slot_complete(1));

    // Now insert header — retroactive verification + assembly
    let assembled = collector.insert_header(batch.header.clone(), proof_ok);
    assert!(assembled.is_some(), "block should assemble after header");
    assert_eq!(assembled.unwrap(), block);
}

/// Forged shreds (with invalid/empty Merkle proofs) that arrived before
/// the header must be evicted during retroactive verification when the
/// header arrives.
#[test]
fn forged_shreds_rejected_after_header_arrival() {
    let kp = Keypair::generate(1);
    let block = test_block(1);
    let batch = shred_block(&block, 0, &kp).unwrap();
    let mut collector = collector();

    // Create a forged shred with a fake proof
    let forged_data = DataShred {
        slot: 1,
        index: 0,
        parent_offset: 1,
        data: vec![0xDE, 0xAD, 0xBE, 0xEF],
        flags: 0,
    };
    let forged_shred = MerkleDataShred::new(forged_data, kp.address());

    // Insert the forged shred before header — it gets buffered
    collector.insert_data_shred(&forged_shred, proof_ok);
    assert_eq!(collector.shred_count(1), 1);

    // Insert the legitimate shreds too (except index 0 which is already forged)
    for shred in &batch.data_shreds {
        if shred.index() != 0 {
            collector.insert_data_shred(shred, proof_ok);
        }
    }

    // Insert the real header — forged shred at index 0 should be evicted
    let result = collector.insert_header(batch.header.clone(), proof_ok);

    // Block should NOT assemble because the forged shred at index 0 was
    // evicted, leaving a gap.
    assert!(
        result.is_none(),
        "block must not assemble when forged shreds are present"
    );

    // Verify forged shred was evicted
    assert_eq!(
        collector.shred_count(1),
        batch.data_shreds.len() - 1,
        "forged shred at index 0 should have been evicted"
    );
}

/// When header is present, a shred with an invalid Merkle proof is
/// rejected immediately (not buffered).
#[test]
fn invalid_proof_rejected_with_header_present() {
    let kp = Keypair::generate(1);
    let block = test_block(1);
    let batch = shred_block(&block, 0, &kp).unwrap();
    let mut collector = collector();

    // Insert header first
    collector.insert_header(batch.header.clone(), proof_ok);

    // Create a shred with invalid proof
    let bad_data = DataShred {
        slot: 1,
        index: 99,
        parent_offset: 1,
        data: vec![0xFF; 10],
        flags: 0,
    };
    let bad_shred = MerkleDataShred::new(bad_data, kp.address());

    // Should be rejected because proof (empty) does not verify
    let result = collector.insert_data_shred(&bad_shred, proof_ok);
    assert!(result.is_none());

    // The bad shred should not be in the collector
    assert_eq!(collector.shred_count(1), 0);
}

/// Code shreds arriving before the header must be buffered but must NOT
/// trigger block assembly (code shreds are FEC parity, not block data).
#[test]
fn code_shreds_before_header_waits_for_header() {
    let kp = Keypair::generate(1);
    let slot = 10u64;
    let (_header, code) = make_code_batch(&kp, slot);
    let mut collector = collector();

    let accepted = collector.insert_code_shred(&code, proof_ok);
    assert!(accepted, "code shred should be buffered pre-header");

    // Code shred is buffered in the slot entry.
    assert!(collector.has_slot(slot));
    assert_eq!(
        collector.code_shred_count(slot),
        1,
        "code shred must be buffered"
    );

    // No data shreds ⟹ slot is not complete, no block assembled.
    assert!(!collector.is_slot_complete(slot));
    assert_eq!(
        collector.shred_count(slot),
        0,
        "no data shreds should be present"
    );
}

/// Forged code shreds that arrive before the header must be evicted during
/// retroactive Merkle verification when the header arrives.
#[test]
fn forged_code_shreds_rejected_after_header_arrival() {
    let kp = Keypair::generate(1);
    let block = test_block(11);
    let batch = shred_block(&block, 10, &kp).unwrap();
    let mut collector = collector();

    // Forge a code shred with a fresh keypair so its Merkle proof is wrong.
    let forger_kp = Keypair::generate(2);
    let forged_storage = CodeShred {
        slot: batch.header.slot,
        index: 0,
        num_data_shreds: 1,
        num_code_shreds: 1,
        position: 0,
        data: vec![0xDE, 0xAD, 0xBE, 0xEF],
    };
    let forged_code = MerkleCodeShred::new(forged_storage, forger_kp.address());

    // Insert forged code shred before header — buffered without verification.
    let accepted = collector.insert_code_shred(&forged_code, proof_ok);
    assert!(accepted, "forged code shred accepted for buffering pre-header");
    assert_eq!(collector.code_shred_count(batch.header.slot), 1);

    // Insert header — triggers retroactive `verify_buffered_code_shreds`.
    // Forged shred's proof fails against real merkle_root → evicted.
    let result = collector.insert_header(batch.header.clone(), proof_ok);
    // Block won't assemble anyway (no data shreds), but the forged code
    // shred must have been evicted during retroactive verification.
    assert!(result.is_none(), "no block — no data shreds were inserted");
    assert_eq!(
        collector.code_shred_count(batch.header.slot),
        0,
        "forged code shred must be evicted after header arrival"
    );
}

/// When the header is already present, a code shred with an invalid Merkle
/// proof is rejected immediately (not buffered).
#[test]
fn invalid_code_proof_rejected_with_header_present() {
    let kp = Keypair::generate(1);
    let block = test_block(12);
    let batch = shred_block(&block, 11, &kp).unwrap();
    let mut collector = collector();

    // Insert header first so Merkle verification is applied inline.
    collector.insert_header(batch.header.clone(), proof_ok);
    assert!(collector.has_header(batch.header.slot));

    // Build a code shred signed by a different key — its proof will not
    // verify against the batch's merkle_root.
    let other_kp = Keypair::generate(2);
    let bad_storage = CodeShred {
        slot: batch.header.slot,
        index: 0,
        num_data_shreds: 1,
        num_code_shreds: 1,
        position: 0,
        data: vec![0xFF; 10],
    };
    let bad_code = MerkleCodeShred::new(bad_storage, other_kp.address());

    // Should be rejected — proof cannot verify against the known merkle root.
    let accepted = collector.insert_code_shred(&bad_code, proof_ok);
    assert!(!accepted, "code shred with invalid proof must be rejected");
    assert_eq!(
        collector.code_shred_count(batch.header.slot),
        0,
        "bad code shred must not be buffered"
    );
}

/// Verify that inserting header for an already-stored slot is a no-op.
#[test]
fn header_insert_for_stored_slot_is_noop() {
    let kp = Keypair::generate(1);
    let root = hash(b"root");
    let header = ShredBatchHeader {
        slot: 5,
        leader: kp.address(),
        merkle_root: root,
        signature: kp.sign(root.as_bytes()),
        num_data_shreds: 10,
        num_code_shreds: 3,
    };
    let mut collector = collector();
    collector.mark_slot_stored(5);

    let result = collector.insert_header(header, proof_ok);
    assert!(result.is_none());
    assert!(!collector.has_header(5));
}

/// Full flow: header first, then shreds — the standard path.
#[test]
fn header_first_then_shreds_assembles() {
    let kp = Keypair::generate(1);
    let block = test_block(2);
    let batch = shred_block(&block, 1, &kp).unwrap();
    let mut collector = collector();

    // Header first
    let result = collector.insert_header(batch.header.clone(), proof_ok);
    assert!(result.is_none(), "no shreds yet, no assembly");

    // Then insert shreds
    let mut assembled = None;
    for shred in &batch.data_shreds {
        if let Some(b) = collector.insert_data_shred(shred, proof_ok) {
            assembled = Some(b);
        }
    }

    assert!(assembled.is_some());
    assert_eq!(assembled.unwrap(), block);
}

/// Inserting the same shred twice should return false on the second insert
/// (duplicate skipped).
#[test]
fn duplicate_shred_rejected() {
    let kp = Keypair::generate(1);
    let mut collector = collector();

    let shred = DataShred {
        slot: 1,
        index: 0,
        parent_offset: 1,
        data: vec![0u8; 10],
        flags: 0,
    };
    let merkle = MerkleDataShred::new(shred, kp.address());

    // First insert succeeds (no header, so it gets buffered)
    let r1 = collector.insert_data_shred(&merkle, proof_ok);
    assert!(r1.is_none()); // buffered, not assembled
    assert_eq!(collector.shred_count(1), 1);

    // Second insert of same shred should be skipped (duplicate)
    let r2 = collector.insert_data_shred(&merkle, proof_ok);
    assert!(r2.is_none());
    assert_eq!(collector.shred_count(1), 1); // still 1, not 2
}

/// When MAX_TRACKED_SLOTS is exceeded, the oldest slot is evicted.
#[test]
fn slot_cap_evicts_oldest() {
    let mut collector = collector();
    let kp = Keypair::generate(1);

    // Fill up to cap
    for slot in 0..MAX_TRACKED_SLOTS as u64 {
        let shred = DataShred {
            slot,
            index: 0,
            parent_offset: 0,
            data: vec![0u8; 10],
            flags: 0,
        };
        let merkle = MerkleDataShred::new(shred, kp.address());
        collector.insert_data_shred(&merkle, proof_ok);
    }

    assert_eq!(collector.tracked_slots().len(), MAX_TRACKED_SLOTS);

    // One more slot should evict slot 0 (oldest)
    let new_slot = MAX_TRACKED_SLOTS as u64;
    let shred = DataShred {
        slot: new_slot,
        index: 0,
        parent_offset: 0,
        data: vec![0u8; 10],
        flags: 0,
    };
    let merkle = MerkleDataShred::new(shred, kp.address());
    collector.insert_data_shred(&merkle, proof_ok);

    // Cap is still respected
    assert!(collector.tracked_slots().len() <= MAX_TRACKED_SLOTS);
    // New slot was inserted
    assert!(collector.has_slot(new_slot));
}

/// A shred received before the batch header arrives must be buffered in the collector but
/// must not be passed on.
#[test]
fn shred_before_header_is_deferred_not_retransmitted() {
    let mut collector = collector();
    let kp = Keypair::generate(1);

    let block = test_block(42);
    let batch = shred_block(&block, 41, &kp).unwrap();
    let shred = batch.data_shreds[0].clone();
    let slot = shred.slot();

    // Confirm: no header present for this slot yet.
    assert!(collector.get_merkle_root(slot).is_none());

    let was_deferred = collector.get_merkle_root(slot).is_none();
    assert!(was_deferred, "should be deferred when no header");

    // Buffer shred in collector (as retransmit stage does).
    let message = MerkleShred::Data(shred.clone());
    let outcome = RetransmitStage::on_shred(&mut collector, &message, 0, proof_ok);
    assert_eq!(outcome, ShredOutcome::Deferred);
    let assembled = collector.insert_data_shred(&shred, proof_ok);
    assert!(assembled.is_none(), "cannot assemble without header");

    // Shred is buffered — present in collector.
    assert!(collector.has_slot(slot));
    assert_eq!(collector.shred_count(slot), 1);
}

/// After the header arrives, the buffered shred undergoes retroactive verification. If it passes, the slot can complete.
#[test]
fn shred_buffered_before_header_assembles_on_header_arrival() {
    let mut collector = collector();
    let kp = Keypair::generate(1);

    let block = test_block(43);
    let batch = shred_block(&block, 42, &kp).unwrap();
    let slot = batch.header.slot;

    // Buffer ALL shreds first (no header) — retransmit stage defers these.
    for shred in &batch.data_shreds {
        let result = collector.insert_data_shred(shred, proof_ok);
        assert!(result.is_none(), "no assembly without header");
    }
    assert!(collector.has_slot(slot));

    // Now header arrives — retroactive verification + assembly.
    let assembled = collector.insert_header(batch.header.clone(), proof_ok);
    assert!(
        assembled.is_some(),
        "block should assemble after header arrives for all-buffered shreds"
    );
    assert_eq!(assembled.unwrap(), block);
}

/// A block whose bytes fill several shreds.
fn large_block(slot: u64, bytes: usize) -> Block {
    let mut block = test_block(slot);
    let data: Vec<u8> = (0..bytes).map(|i| (i * 31 % 251) as u8).collect();
    block.header.transaction_count = 1;
    block.transactions.push(Transaction {
        signatures: vec![vec![1, 2, 3]],
        signer_pubkeys: vec![vec![4, 5]],
        message: Message {
            account_keys: vec![hash(b"payer"), hash(b"program")],
            recent_blockhash: hash(b"recent"),
            instructions: vec![CompiledInstruction { program_id_index: 1, accounts: vec![0], data }],
            num_required_signatures: 1,
            num_readonly_signed: 0,
            num_readonly_unsigned: 1,
        },
    });
    block
}

#[test]
fn large_block_is_cut_in_portions() {
    let kp = Keypair::generate(1);
    let block = large_block(9, 50_000);
    let len = to_vec(&block).unwrap().len();
    let portion = MAX_DATA_PER_SHRED as usize;
    let batch = shred_block(&block, 8, &kp).unwrap();
    assert_eq!(batch.data_shreds.len(), (len + portion - 1) / portion);
    let n = batch.data_shreds.len();
    for (i, s) in batch.data_shreds.iter().enumerate() {
        assert_eq!(s.shred.parent_offset, 1);
        assert_eq!(s.shred.data.len(), if i + 1 < n { portion } else { len - (n - 1) * portion });
        assert_eq!(s.shred.flags, if i + 1 < n { 0 } else { LAST_SHRED_FLAG });
        assert!(s.verify(&batch.header.merkle_root, proof_ok));
    }
    // 42 data shreds: one full group with ten parity shreds, and ten shreds with three.
    assert_eq!(n, 42);
    assert_eq!(batch.code_shreds.len(), 10 + 3);
    for (i, c) in batch.code_shreds.iter().enumerate() {
        assert_eq!(c.index(), i as u32);
        assert_eq!(c.shred.num_data_shreds, if i < 10 { 32 } else { 10 });
        assert_eq!(c.shred.num_code_shreds, if i < 10 { 10 } else { 3 });
        assert_eq!(c.shred.position, if i < 10 { i as u32 } else { i as u32 - 10 });
        assert!(c.verify(&batch.header.merkle_root, proof_ok));
    }
    let shreds: Vec<DataShred> = batch.data_shreds.iter().map(|s| s.shred.clone()).collect();
    assert_eq!(Deshredder::deshred(&shreds).unwrap(), block);
}

/// The parity of a group brings back data shreds that were lost: what is recovered starts
/// with the bytes of the shred.
#[test]
fn code_shreds_bring_back_lost_shreds() {
    let kp = Keypair::generate(1);
    let batch = shred_block(&large_block(3, 9_000), 2, &kp).unwrap();
    let n = batch.data_shreds.len();
    let longest = batch.data_shreds.iter().map(|s| s.shred_bytes().len()).max().unwrap();
    let ec = ErasureCoder::from_fec_rate(n, FEC_RATE_PERCENT as u32);
    assert_eq!(batch.code_shreds.len(), ec.parity_shards());
    let mut shards: Vec<Option<Vec<u8>>> = batch
        .data_shreds
        .iter()
        .map(|s| {
            let mut bytes = s.shred_bytes().to_vec();
            bytes.resize(longest, 0);
            Some(bytes)
        })
        .collect();
    shards.extend(batch.code_shreds.iter().map(|c| Some(c.shred.data.clone())));
    shards[0] = None;
    shards[n - 1] = None;
    ec.recover(&mut shards).unwrap();
    for i in [0, n - 1] {
        let bytes = shards[i].clone().unwrap();
        let raw = batch.data_shreds[i].shred_bytes();
        assert_eq!(&bytes[..raw.len()], raw);
        assert!(bytes[raw.len()..].iter().all(|b| *b == 0));
        assert_eq!(from_slice::<DataShred>(&bytes[..raw.len()]).unwrap(), batch.data_shreds[i].shred);
    }
}

#[test]
fn error_texts_of_shredding() {
    let kp = Keypair::generate(1);
    let early = shred_block(&test_block_after(100_000, 0), 0, &kp).err().unwrap();
    assert_eq!(
        early.describe(),
        "block serialization failed: parent_offset overflow: slot=100000 parent_slot=0 \
         diff=100000 > u16::MAX"
    );
    let late = shred_block(&test_block(5), 10, &kp).err().unwrap();
    assert_eq!(
        late.describe(),
        "block serialization failed: parent_slot > slot: invalid block ancestry"
    );
    assert!(shred_block(&test_block(65_535), 0, &kp).is_ok());
    let no_proofs =
        Shredder::shred_block(&test_block(5), 4, kp.address(), leaf_hash, |_| (hash(b"r"), vec![]), |_| {
            vec![]
        });
    assert_eq!(
        no_proofs.err().unwrap().describe(),
        "deshredding failed: missing merkle proof for data shred 0"
    );
    let block = large_block(3, 9_000);
    let n = shred_block(&block, 2, &kp).unwrap().data_shreds.len();
    let data_only = Shredder::shred_block(
        &block,
        2,
        kp.address(),
        leaf_hash,
        |leaves| {
            let (root, mut proofs) = merkle_tree(leaves);
            proofs.truncate(n);
            (root, proofs)
        },
        |_| vec![],
    );
    assert_eq!(
        data_only.err().unwrap().describe(),
        "deshredding failed: missing merkle proof for code shred 0"
    );
}

#[test]
fn parts_of_a_sealed_batch() {
    let block = large_block(7, 5_000);
    let batch = Shredder::cut_block(&block, 6, hash(b"leader")).unwrap();
    assert_eq!(batch.slot, 7);
    assert_eq!(batch.leader, hash(b"leader"));
    let leaves = Shredder::leaves(&batch, leaf_hash);
    assert_eq!(leaves.len(), batch.data_shreds.len() + batch.code_shreds.len());
    assert_eq!(leaves[0], hash(batch.data_shreds[0].shred_bytes()));
    assert_eq!(leaves[batch.data_shreds.len()], hash(batch.code_shreds[0].shred_bytes()));
    let (root, proofs) = merkle_tree(&leaves);
    let sealed = Shredder::seal_batch(batch, root, &proofs, vec![9, 9]).unwrap();
    assert_eq!(sealed.header.signature, vec![9, 9]);
    assert_eq!(sealed.header.merkle_root, root);
    assert_eq!(sealed.data_shreds[1].merkle_proof, proofs[1].clone().unwrap());
    let header = build_batch_header(
        7,
        hash(b"leader"),
        &sealed.data_shreds,
        &sealed.code_shreds,
        vec![9, 9],
        root,
    );
    assert_eq!(header, sealed.header);
}

#[test]
fn deshredding_errors_have_their_text() {
    assert!(matches!(Deshredder::deshred(&[]), Err(TurbineError::Deshredding(_))));
    let shred = |index: u32, flags: u8| DataShred { slot: 1, index, parent_offset: 1, data: vec![0], flags };
    let gap = Deshredder::deshred(&[shred(0, 0), shred(2, 1)]).unwrap_err();
    assert!(gap.describe().starts_with("deshredding failed: "));
    let garbage = Deshredder::deshred(&[shred(0, 1)]).unwrap_err();
    assert!(!garbage.describe().is_empty());
}

/// Shreds may come in any order, before or after the header.
#[test]
fn shreds_in_any_order_give_the_block() {
    let kp = Keypair::generate(1);
    let block = large_block(20, 9_000);
    let batch = shred_block(&block, 19, &kp).unwrap();
    let n = batch.data_shreds.len();
    let mut collector = collector();
    for i in (n / 2..n).rev() {
        assert!(collector.insert_data_shred(&batch.data_shreds[i], proof_ok).is_none());
    }
    assert_eq!(collector.missing_shreds(20), (0..(n / 2) as u32).collect::<Vec<u32>>());
    assert!(collector.insert_header(batch.header.clone(), proof_ok).is_none());
    for i in 1..n / 2 {
        assert!(collector.insert_data_shred(&batch.data_shreds[i], proof_ok).is_none());
    }
    assert_eq!(collector.missing_shreds(20), vec![0]);
    assert_eq!(collector.insert_data_shred(&batch.data_shreds[0], proof_ok), Some(block));
    assert!(collector.is_slot_stored(20));
    assert!(!collector.has_slot(20));
}

/// A forged shred that arrived early goes, and the genuine one completes the slot.
#[test]
fn genuine_shred_replaces_forged_one() {
    let kp = Keypair::generate(1);
    let block = large_block(20, 3_000);
    let batch = shred_block(&block, 19, &kp).unwrap();
    let mut collector = collector();
    let forged = DataShred { slot: 20, index: 1, parent_offset: 1, data: vec![1], flags: 1 };
    collector.insert_data_shred(&MerkleDataShred::new(forged, kp.address()), proof_ok);
    for s in &batch.data_shreds {
        collector.insert_data_shred(s, proof_ok);
    }
    assert_eq!(collector.insert_header(batch.header.clone(), proof_ok), None);
    assert_eq!(collector.missing_shreds(20), vec![1]);
    assert_eq!(collector.insert_data_shred(&batch.data_shreds[1], proof_ok), Some(block));
}

#[test]
fn collector_limits_and_sets() {
    let mut collector = ShredCollector::new(2, 2);
    let shred = |slot: u64, index: u32| {
        MerkleDataShred::new(
            DataShred { slot, index, parent_offset: 1, data: vec![7], flags: 0 },
            hash(b"leader"),
        )
    };
    let code = MerkleCodeShred::new(
        CodeShred {
            slot: 5,
            index: 1,
            num_data_shreds: 1,
            num_code_shreds: 2,
            position: 1,
            data: vec![1],
        },
        hash(b"leader"),
    );
    collector.insert_data_shred(&shred(5, 0), proof_ok);
    assert!(collector.insert_code_shred(&code, proof_ok));
    assert!(!collector.insert_code_shred(&code, proof_ok));
    // Data and code shreds share the room of a slot.
    collector.insert_data_shred(&shred(5, 1), proof_ok);
    assert_eq!((collector.shred_count(5), collector.code_shred_count(5)), (1, 1));
    collector.insert_data_shred(&shred(6, 0), proof_ok);
    collector.insert_data_shred(&shred(7, 0), proof_ok);
    let mut slots = collector.tracked_slots();
    slots.sort();
    assert_eq!(slots, vec![6, 7]);
    collector.mark_slot_empty(9);
    collector.request_slot_repair(9);
    assert!(!collector.has_slot(9));
    collector.request_slot_repair(8);
    assert!(collector.has_slot(8));
    assert!(collector.missing_shreds(8).is_empty());
    collector.insert_data_shred(&shred(9, 0), proof_ok);
    assert!(collector.has_slot(9));
    collector.remove_slot(9);
    assert!(!collector.has_slot(9));
    assert_eq!(collector.cleanup_old_slots(108, 100), 0);
    assert_eq!(collector.cleanup_old_slots(109, 100), 1);
    assert!(collector.tracked_slots().is_empty());
}

#[test]
fn retransmit_outcomes() {
    let kp = Keypair::generate(1);
    let block = test_block(2000);
    let batch = shred_block(&block, 1999, &kp).unwrap();
    let shred = MerkleShred::Data(batch.data_shreds[0].clone());
    assert_eq!((shred.slot(), shred.index(), shred.leader()), (2000, 0, kp.address()));
    assert!(shred.verify(&batch.header.merkle_root, proof_ok));
    assert!(!shred.verify(&hash(b"other"), proof_ok));
    let mut c = collector();
    let horizon = RETRANSMIT_SLOT_HORIZON;
    let stale = RetransmitStage::on_shred(&mut c, &shred, 2000 + horizon + 1, proof_ok);
    assert_eq!(stale, ShredOutcome::Skipped(Skip::Stale));
    let deferred = RetransmitStage::on_shred(&mut c, &shred, 2000 + horizon, proof_ok);
    assert_eq!(deferred, ShredOutcome::Deferred);
    assert_eq!(c.shred_count(2000), 1);
    let header = &batch.header;
    assert_eq!(
        RetransmitStage::on_header(&mut c, header, 0, |_| Signer::Unknown, proof_ok),
        HeaderOutcome::UnknownLeader
    );
    assert_eq!(
        RetransmitStage::on_header(&mut c, header, 0, |_| Signer::Forged, proof_ok),
        HeaderOutcome::InvalidSignature
    );
    assert!(!c.has_header(2000));
    assert_eq!(
        RetransmitStage::on_header(&mut c, header, 0, |_| Signer::Genuine, proof_ok),
        HeaderOutcome::Accepted(Some(block.clone()))
    );
    assert_eq!(
        RetransmitStage::on_header(&mut c, header, 0, |_| Signer::Genuine, proof_ok),
        HeaderOutcome::Skipped(Skip::Stored)
    );
    let mut other = collector();
    assert_eq!(
        RetransmitStage::on_header(&mut other, header, 0, |_| Signer::Genuine, proof_ok),
        HeaderOutcome::Accepted(None)
    );
    let forged = MerkleShred::Data(MerkleDataShred::new(
        DataShred { slot: 2000, index: 0, parent_offset: 1, data: vec![1], flags: 1 },
        kp.address(),
    ));
    assert_eq!(
        RetransmitStage::on_shred(&mut other, &forged, 0, proof_ok),
        ShredOutcome::InvalidProof
    );
    assert_eq!(
        RetransmitStage::on_shred(&mut other, &shred, 0, proof_ok),
        ShredOutcome::Accepted(Some(block))
    );
}

#[test]
fn retransmit_peers_are_remembered() {
    let me = hash(b"me");
    let (a, b) = (hash(b"a"), hash(b"b"));
    let mut stage = RetransmitStage::new(me);
    let addr = |port: u16| ((false, 0x7f00_0001u128), port, 0u32, 0u32);
    let tree = |slot: u64| {
        let nodes = ClusterNode::for_slot(&[a, b], slot, me, |_| Some(1), leaf_hash);
        Some(TurbineTree::new(me, &nodes, 8))
    };
    // One of the two nodes below this one has no address.
    let lookup = |id: &Digest| if *id == a { Some(addr(1)) } else { None };
    assert_eq!(stage.get_peer_addrs(4, tree, lookup), vec![addr(1)]);
    // What was found is kept, until the slot is done with.
    assert_eq!(stage.get_peer_addrs(4, |_| None, |_: &Digest| None), vec![addr(1)]);
    stage.forget_peers(4);
    assert!(stage.get_peer_addrs(4, |_| None, |_: &Digest| Some(addr(9))).is_empty());
}

/// The signature of a header is looked at only if its slot is not passed over.
#[test]
fn stale_headers_are_not_verified() {
    let kp = Keypair::generate(1);
    let batch = shred_block(&test_block(5), 4, &kp).unwrap();
    let mut c = collector();
    let outcome = RetransmitStage::on_header(
        &mut c,
        &batch.header,
        5 + RETRANSMIT_SLOT_HORIZON + 1,
        |_| panic!("looked at"),
        proof_ok,
    );
    assert_eq!(outcome, HeaderOutcome::Skipped(Skip::Stale));
}

fn accept(_: &MerkleProof, _: &Vec<u8>, _: &Digest) -> bool {
    true
}

/// As many shreds as the last index calls for are not enough: every one up to it has to be
/// there. What lies behind it does not matter.
#[test]
fn complete_means_every_shred_up_to_the_last() {
    let kp = Keypair::generate(1);
    let block = large_block(20, 3_000);
    let batch = shred_block(&block, 19, &kp).unwrap();
    let n = batch.data_shreds.len();
    assert!(n > 2);
    let surplus = DataShred {
        slot: 20,
        index: n as u32 + 3,
        parent_offset: 1,
        data: vec![1],
        flags: 0,
    };
    let mut collector = collector();
    assert!(collector.insert_header(batch.header.clone(), accept).is_none());
    assert!(collector
        .insert_data_shred(&MerkleDataShred::new(surplus, kp.address()), accept)
        .is_none());
    for s in batch.data_shreds.iter().filter(|s| s.index() != 1) {
        assert!(collector.insert_data_shred(s, accept).is_none());
    }
    assert_eq!(collector.shred_count(20), n);
    assert!(!collector.is_slot_complete(20));
    assert_eq!(collector.missing_shreds(20), vec![1]);
    assert_eq!(collector.insert_data_shred(&batch.data_shreds[1], accept), Some(block));
    // A stored slot takes in nothing more.
    assert!(collector.insert_data_shred(&batch.data_shreds[0], accept).is_none());
    assert!(!collector.has_slot(20));
}
