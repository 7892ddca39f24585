use nusantara::codec::to_vec;
use nusantara::digest::Digest;
use nusantara::ledger::{Block, BlockHeader};
use nusantara::merkle::MerkleProof;
use nusantara::net::PeerAddr;
use nusantara::storage::shred::{CodeShred, DataShred};
use nusantara::turbine::broadcast_stage::BroadcastStage;
use nusantara::turbine::compression::{compress, decompress, finish_decompress, MAX_DECOMPRESS_SIZE};
use nusantara::turbine::erasure::ErasureCoder;
use nusantara::turbine::error::TurbineError;
use nusantara::turbine::merkle_shred::{
    MerkleCodeShred, MerkleDataShred, MerkleShred, ShredBatchHeader,
};
use nusantara::turbine::protocol::{
    shred_wire_size, BatchRepairResponse, RepairRequest, TurbineMessage,
    MAX_BATCH_RESPONSE_SHREDS, MAX_UDP_PACKET,
};
use nusantara::turbine::repair_service::{
    sample_peers, RepairService, MAX_REPAIR_SLOTS_PER_TICK, MAX_REPAIR_SLOT_AGE,
    REPAIR_COOLDOWN_MS, REPAIR_PEER_SAMPLE_SIZE,
};
use nusantara::turbine::shred_collector::ShredCollector;
use nusantara::turbine::shred_receiver::{
    ErrorAction, PacketAction, ShredReceiver, MAX_CONSECUTIVE_ERRORS,
};
use nusantara::turbine::shredder::{ShredBatch, Shredder};
use nusantara::turbine::turbine_tree::{
    weighted_shuffle_turbine, ClusterNode, TurbineTree, TURBINE_FANOUT,
};
use nusantara::zstd_frames::{TAG_RAW, TAG_ZSTD, ZSTD_LEVEL};
use std::collections::HashMap;

fn addr(port: u16) -> PeerAddr {
    ((false, 0x7f00_0001), port, 0, 0)
}

fn tree_for(
    leader: Digest,
    nodes: &[Digest],
    stakes: &HashMap<Digest, u64>,
    slot: u64,
    fanout: usize,
) -> TurbineTree {
    let cluster =
        ClusterNode::for_slot(nodes, slot, leader, |n: &Digest| stakes.get(n).copied(), leaf_hash);
    TurbineTree::new(leader, &cluster, fanout)
}

/// A digest that tells labels apart.
fn hash(label: &[u8]) -> Digest {
    let mut bytes = [0u8; 64];
    for (i, b) in bytes.iter_mut().enumerate() {
        let mut acc = 131u32.wrapping_add(i as u32 * 2_654_435_761);
        for (j, &x) in label.iter().enumerate() {
            acc = acc.rotate_left(5).wrapping_mul(16_777_619) ^ (x as u32 + j as u32);
        }
        *b = (acc ^ (acc >> 8) ^ (acc >> 16) ^ (acc >> 24)) as u8;
    }
    Digest::new(bytes)
}

fn leaf_hash(bytes: &Vec<u8>) -> Digest {
    hash(bytes)
}

fn hash_pair(left: &Digest, right: &Digest) -> Digest {
    let mut bytes = left.as_bytes().to_vec();
    bytes.extend_from_slice(right.as_bytes());
    hash(&bytes)
}

/// Root and proofs of the tree over the leaves; an odd one out moves up as it is.
fn merkle_tree(leaves: &Vec<Digest>) -> (Digest, Vec<Option<MerkleProof>>) {
    let mut proofs: Vec<MerkleProof> = leaves
        .iter()
        .map(|_| MerkleProof { hashes: Vec::new(), path: Vec::new() })
        .collect();
    let mut level: Vec<Digest> = leaves.clone();
    let mut at: Vec<usize> = (0..leaves.len()).collect();
    while level.len() > 1 {
        for (leaf, place) in at.iter_mut().enumerate() {
            let sibling = *place ^ 1;
            if sibling < level.len() {
                proofs[leaf].hashes.push(level[sibling]);
                proofs[leaf].path.push((*place & 1) as u8);
            }
            *place /= 2;
        }
        level = level
            .chunks(2)
            .map(|pair| if pair.len() == 2 { hash_pair(&pair[0], &pair[1]) } else { pair[0] })
            .collect();
    }
    (level[0], proofs.into_iter().map(Some).collect())
}

/// Whether the proof leads from the hash of the bytes to the root.
fn proof_ok(proof: &MerkleProof, bytes: &Vec<u8>, root: &Digest) -> bool {
    let mut node = hash(bytes);
    for (sibling, side) in proof.hashes.iter().zip(&proof.path) {
        node = if *side == 0 { hash_pair(&node, sibling) } else { hash_pair(sibling, &node) };
    }
    node == *root
}

/// A key pair of this test: a signature is a hash of the key and the message.
struct Keypair {
    id: u8,
}

impl Keypair {
    fn generate(id: u8) -> Self {
        Keypair { id }
    }

    fn address(&self) -> Digest {
        hash(&[self.id])
    }

    fn sign(&self, message: &[u8]) -> Vec<u8> {
        let mut bytes = vec![self.id];
        bytes.extend_from_slice(message);
        hash(&bytes).as_bytes().to_vec()
    }

    fn signed(&self, signature: &Vec<u8>, root: &Digest) -> bool {
        *signature == self.sign(root.as_bytes())
    }
}

fn shred_block(block: &Block, parent_slot: u64, kp: &Keypair) -> Result<ShredBatch, TurbineError> {
    Shredder::shred_block(block, parent_slot, kp.address(), leaf_hash, merkle_tree, |root| {
        kp.sign(root.as_bytes())
    })
}

fn test_block_after(slot: u64, parent_slot: u64) -> Block {
    Block {
        header: BlockHeader {
            slot,
            parent_slot,
            parent_hash: hash(b"parent"),
            block_hash: hash(b"block"),
            timestamp: 1000,
            validator: hash(b"validator"),
            transaction_count: 0,
            merkle_root: Digest::zero(),
            poh_hash: Digest::zero(),
            bank_hash: Digest::zero(),
            state_root: Digest::zero(),
        },
        transactions: Vec::new(),
        batches: Vec::new(),
    }
}

fn test_block(slot: u64) -> Block {
    test_block_after(slot, slot.saturating_sub(1))
}

fn make_merkle_shred(kp: &Keypair, slot: u64, index: u32, data: Vec<u8>) -> MerkleShred {
    let shred = DataShred {
        slot,
        index,
        parent_offset: 1,
        data,
        flags: 0,
    };
    let mut data_shred = MerkleDataShred::new(shred, kp.address());
    let hashes = vec![data_shred.shred_hash(leaf_hash)];
    let (_, proofs) = merkle_tree(&hashes);
    data_shred.merkle_proof = proofs[0].clone().unwrap();
    MerkleShred::Data(data_shred)
}

#[test]
fn shred_message_roundtrip() {
    let kp = Keypair::generate(1);
    let shred = make_merkle_shred(&kp, 1, 0, vec![42u8; 100]);
    let msg = TurbineMessage::Shred(shred);

    let bytes = msg.serialize_to_bytes().unwrap();
    let decoded = TurbineMessage::deserialize_from_bytes(&bytes).unwrap();
    assert_eq!(msg, decoded);
}

#[test]
fn repair_request_roundtrip() {
    let msg = TurbineMessage::RepairRequest(RepairRequest::Shred {
        slot: 10,
        index: 5,
    });
    let bytes = msg.serialize_to_bytes().unwrap();
    let decoded = TurbineMessage::deserialize_from_bytes(&bytes).unwrap();
    assert_eq!(msg, decoded);
}

#[test]
fn batch_header_request_roundtrip() {
    let msg = TurbineMessage::RepairRequest(RepairRequest::BatchHeader { slot: 42 });
    let bytes = msg.serialize_to_bytes().unwrap();
    let decoded = TurbineMessage::deserialize_from_bytes(&bytes).unwrap();
    assert_eq!(msg, decoded);
}

#[test]
fn shred_batch_header_message_roundtrip() {
    let kp = Keypair::generate(1);
    let root = hash(b"test_root");
    let sig = kp.sign(root.as_bytes());
    let header = ShredBatchHeader {
        slot: 5,
        leader: kp.address(),
        merkle_root: root,
        signature: sig,
        num_data_shreds: 10,
        num_code_shreds: 3,
    };
    let msg = TurbineMessage::ShredBatchHeader(header);
    let bytes = msg.serialize_to_bytes().unwrap();
    let decoded = TurbineMessage::deserialize_from_bytes(&bytes).unwrap();
    assert_eq!(msg, decoded);
}

#[test]
fn batch_repair_response_roundtrip() {
    let kp = Keypair::generate(1);
    let shreds: Vec<MerkleShred> = (0..3)
        .map(|i| make_merkle_shred(&kp, 5, i, vec![i as u8; 100]))
        .collect();

    let msg = TurbineMessage::BatchRepairResponse(BatchRepairResponse {
        slot: 5,
        shreds,
    });
    let bytes = msg.serialize_to_bytes().unwrap();
    let decoded = TurbineMessage::deserialize_from_bytes(&bytes).unwrap();
    assert_eq!(msg, decoded);
}

#[test]
fn batch_pack_empty() {
    let batches = BatchRepairResponse::pack(1, Vec::new(), MAX_UDP_PACKET).unwrap();
    assert!(batches.is_empty());
}

#[test]
fn batch_pack_single_shred() {
    let kp = Keypair::generate(1);
    let shred = make_merkle_shred(&kp, 1, 0, vec![0u8; 100]);

    let batches = BatchRepairResponse::pack(1, vec![shred], MAX_UDP_PACKET).unwrap();
    assert_eq!(batches.len(), 1);
    assert_eq!(batches[0].shreds.len(), 1);
}

#[test]
fn compression_roundtrip_large_message() {
    let kp = Keypair::generate(1);
    // Create a large shred that will trigger compression
    let shred = make_merkle_shred(&kp, 1, 0, vec![0u8; 1000]);
    let msg = TurbineMessage::Shred(shred);

    let bytes = msg.serialize_to_bytes().unwrap();
    let decoded = TurbineMessage::deserialize_from_bytes(&bytes).unwrap();
    assert_eq!(msg, decoded);
}

/// Verify `shred_wire_size` matches the actual `to_vec` size.
#[test]
fn shred_wire_size_matches_borsh() {
    let kp = Keypair::generate(1);
    // Test with data shred of various sizes
    for data_len in [0usize, 10, 100, 1000, 1228] {
        let shred = make_merkle_shred(&kp, 1, 0, vec![0xAB; data_len]);
        let actual = to_vec(&shred).unwrap().len();
        let computed = shred_wire_size(&shred);
        assert_eq!(
            computed,
            actual,
            "shred_wire_size mismatch for data_len={data_len}: computed={computed} actual={actual}"
        );
    }
}

#[test]
fn pack_rejects_oversize_single_shred() {
    let kp = Keypair::generate(1);
    // Create a shred that is large enough to exceed a tiny max_packet_size
    let shred = make_merkle_shred(&kp, 1, 0, vec![0u8; 1000]);
    // Set max_packet_size smaller than any shred can fit
    let result = BatchRepairResponse::pack(1, vec![shred], 50);
    assert!(result.is_err());
    match result.unwrap_err() {
        TurbineError::ShredTooLarge { .. } => {}
        e => panic!("expected ShredTooLarge, got: {}", e.describe()),
    }
}

#[test]
fn max_batch_response_shreds_constant() {
    assert_eq!(MAX_BATCH_RESPONSE_SHREDS, 64);
}

#[test]
fn encode_and_recover() {
    let ec = ErasureCoder::new(4, 2);
    let data: Vec<Vec<u8>> = (0..4)
        .map(|i| vec![i as u8; 64])
        .collect();

    let parity = ec.encode(&data).unwrap();
    assert_eq!(parity.len(), 2);

    // Simulate losing 2 data shards
    let mut shards: Vec<Option<Vec<u8>>> = data.iter().map(|d| Some(d.clone())).collect();
    shards.extend(parity.iter().map(|p| Some(p.clone())));

    shards[0] = None; // lose shard 0
    shards[2] = None; // lose shard 2

    ec.recover(&mut shards).unwrap();

    // Verify recovery
    assert_eq!(shards[0].as_ref().unwrap(), &data[0]);
    assert_eq!(shards[2].as_ref().unwrap(), &data[2]);
}

#[test]
fn too_many_losses_fails() {
    let ec = ErasureCoder::new(4, 2);
    let data: Vec<Vec<u8>> = (0..4).map(|i| vec![i as u8; 32]).collect();
    let parity = ec.encode(&data).unwrap();

    let mut shards: Vec<Option<Vec<u8>>> = data.iter().map(|d| Some(d.clone())).collect();
    shards.extend(parity.iter().map(|p| Some(p.clone())));

    // Lose 3 shards (more than parity count)
    shards[0] = None;
    shards[1] = None;
    shards[2] = None;

    let result = ec.recover(&mut shards);
    assert!(result.is_err());
}

#[test]
fn from_fec_rate() {
    let ec = ErasureCoder::from_fec_rate(32, 33);
    assert_eq!(ec.data_shards(), 32);
    assert_eq!(ec.parity_shards(), 10); // 32 * 33 / 100 = 10.56 -> 10
}

#[test]
fn no_losses_noop() {
    let ec = ErasureCoder::new(3, 2);
    let data: Vec<Vec<u8>> = (0..3).map(|i| vec![i as u8; 16]).collect();
    let parity = ec.encode(&data).unwrap();

    let mut shards: Vec<Option<Vec<u8>>> = data.iter().map(|d| Some(d.clone())).collect();
    shards.extend(parity.iter().map(|p| Some(p.clone())));

    ec.recover(&mut shards).unwrap();
    for (i, d) in data.iter().enumerate() {
        assert_eq!(shards[i].as_ref().unwrap(), d);
    }
}

#[test]
fn roundtrip() {
    let data = vec![42u8; 1024];
    let compressed = compress(&data).unwrap();
    let decompressed = decompress(&compressed).unwrap();
    assert_eq!(data, decompressed);
}

#[test]
fn below_threshold_raw() {
    let data = vec![1u8; 100];
    let compressed = compress(&data).unwrap();
    assert_eq!(compressed[0], TAG_RAW);
    assert_eq!(&compressed[1..], &data[..]);
}

#[test]
fn incompressible_sent_raw() {
    // Random-ish data that won't compress well
    let data: Vec<u8> = (0..512).map(|i| (i * 7 + 13) as u8).collect();
    let compressed = compress(&data).unwrap();
    // Should either be raw or compressed — both are valid roundtrips
    let decompressed = decompress(&compressed).unwrap();
    assert_eq!(data, decompressed);
}

#[test]
fn empty_payload_error() {
    assert!(compress(&[]).is_err());
    assert!(decompress(&[]).is_err());
}

#[test]
fn invalid_tag_error() {
    let bad = vec![0xFF, 1, 2, 3];
    assert!(decompress(&bad).is_err());
}

#[test]
fn decompression_bomb_rejected() {
    // Create a payload that compresses well but decompresses to > 4 MiB.
    // Repeating zeros compress extremely well with zstd.
    let oversized = vec![0u8; MAX_DECOMPRESS_SIZE + 1];
    let compressed =
        zstd::encode_all(oversized.as_slice(), ZSTD_LEVEL).expect("compression must succeed");

    // Prepend the TAG_ZSTD byte to simulate wire format
    let mut tagged = Vec::with_capacity(1 + compressed.len());
    tagged.push(TAG_ZSTD);
    tagged.extend_from_slice(&compressed);

    let result = decompress(&tagged);
    assert!(result.is_err(), "decompression bomb should be rejected");
    let err_msg = result.unwrap_err().describe();
    assert!(
        err_msg.contains("exceeds limit"),
        "error should mention limit: {err_msg}"
    );
}

#[test]
fn decompression_within_limit_succeeds() {
    // Create a payload that compresses well and is exactly at the limit
    let at_limit = vec![0u8; MAX_DECOMPRESS_SIZE];
    let compressed =
        zstd::encode_all(at_limit.as_slice(), ZSTD_LEVEL).expect("compression must succeed");

    let mut tagged = Vec::with_capacity(1 + compressed.len());
    tagged.push(TAG_ZSTD);
    tagged.extend_from_slice(&compressed);

    let result = decompress(&tagged);
    assert!(result.is_ok(), "payload at exactly the limit should succeed");
    assert_eq!(result.unwrap().len(), MAX_DECOMPRESS_SIZE);
}

#[test]
fn sample_peers_returns_all_when_fewer_than_count() {
    let peers = vec![addr(1000), addr(1001)];
    let result = sample_peers(&peers, 5);
    assert_eq!(result.len(), 2);
    assert!(result.contains(&addr(1000)));
    assert!(result.contains(&addr(1001)));
}

#[test]
fn sample_peers_returns_exact_count() {
    let peers: Vec<PeerAddr> = (1000..1010).map(addr).collect();
    let result = sample_peers(&peers, 2);
    assert_eq!(result.len(), 2);
    for p in &result {
        assert!(peers.contains(p));
    }
}

#[test]
fn config_constants_from_toml() {
    assert_eq!(MAX_REPAIR_SLOT_AGE, 1024);
    assert_eq!(MAX_REPAIR_SLOTS_PER_TICK, 512);
    assert_eq!(REPAIR_PEER_SAMPLE_SIZE, 2);
    assert_eq!(REPAIR_COOLDOWN_MS, 1000);
}

#[test]
fn turbine_tree_config_values() {
    assert_eq!(TURBINE_FANOUT, 32);
}

#[test]
fn leader_sends_to_layer_0() {
    let leader = hash(b"leader");
    let nodes: Vec<Digest> = (0..100).map(|i| hash(&(i as u64).to_le_bytes())).collect();
    let stakes: HashMap<Digest, u64> = nodes.iter().map(|n| (*n, 100)).collect();

    let tree = tree_for(leader, &nodes, &stakes, 1, 32);
    let peers = tree.retransmit_peers(&leader);
    assert_eq!(peers.len(), 32);
}

#[test]
fn layer_0_node_sends_to_layer_1() {
    let leader = hash(b"leader");
    let nodes: Vec<Digest> = (0..200).map(|i| hash(&(i as u64).to_le_bytes())).collect();
    let stakes: HashMap<Digest, u64> = nodes.iter().map(|n| (*n, 100)).collect();

    let tree = tree_for(leader, &nodes, &stakes, 1, 4);

    // Find a layer-0 node
    let layer_0_peers = tree.retransmit_peers(&leader);
    let layer_0_node = &layer_0_peers[0];

    let peers = tree.retransmit_peers(layer_0_node);
    // Should have children in layer 1
    assert!(!peers.is_empty());
}

#[test]
fn deterministic_per_slot() {
    let leader = hash(b"leader");
    let nodes: Vec<Digest> = (0..50).map(|i| hash(&(i as u64).to_le_bytes())).collect();
    let stakes: HashMap<Digest, u64> = nodes.iter().map(|n| (*n, 100)).collect();

    let tree1 = tree_for(leader, &nodes, &stakes, 5, 32);
    let tree2 = tree_for(leader, &nodes, &stakes, 5, 32);

    let peers1 = tree1.retransmit_peers(&leader);
    let peers2 = tree2.retransmit_peers(&leader);
    assert_eq!(peers1, peers2);
}

#[test]
fn different_slots_different_topology() {
    let leader = hash(b"leader");
    let nodes: Vec<Digest> = (0..50).map(|i| hash(&(i as u64).to_le_bytes())).collect();
    let stakes: HashMap<Digest, u64> = nodes.iter().map(|n| (*n, 100)).collect();

    let tree1 = tree_for(leader, &nodes, &stakes, 1, 32);
    let tree2 = tree_for(leader, &nodes, &stakes, 2, 32);

    let peers1 = tree1.retransmit_peers(&leader);
    let peers2 = tree2.retransmit_peers(&leader);
    assert_ne!(peers1, peers2);
}

#[test]
fn unknown_node_empty_peers() {
    let leader = hash(b"leader");
    let nodes: Vec<Digest> = (0..10).map(|i| hash(&(i as u64).to_le_bytes())).collect();
    let stakes: HashMap<Digest, u64> = nodes.iter().map(|n| (*n, 100)).collect();

    let tree = tree_for(leader, &nodes, &stakes, 1, 4);
    let unknown = hash(b"unknown");
    assert!(tree.retransmit_peers(&unknown).is_empty());
}

#[test]
fn layer_of_calculation() {
    let leader = hash(b"leader");
    let nodes: Vec<Digest> = (0..100).map(|i| hash(&(i as u64).to_le_bytes())).collect();
    let stakes: HashMap<Digest, u64> = nodes.iter().map(|n| (*n, 100)).collect();

    let tree = tree_for(leader, &nodes, &stakes, 1, 10);
    assert_eq!(tree.layer_of(&leader), None); // Leader has no layer
}

#[test]
fn wire_size_of_code_shreds() {
    for len in [0usize, 1, 500] {
        let shred = MerkleShred::Code(
            MerkleCodeShred::new(
                CodeShred {
                    slot: 1,
                    index: 2,
                    num_data_shreds: 3,
                    num_code_shreds: 4,
                    position: 5,
                    data: vec![0xCD; len],
                },
                hash(b"leader"),
            )
            .with_proof(MerkleProof { hashes: vec![hash(b"a"), hash(b"b")], path: vec![0, 1] }),
        );
        assert_eq!(shred_wire_size(&shred), to_vec(&shred).unwrap().len());
    }
}

#[test]
fn pack_fills_packets_in_order() {
    let kp = Keypair::generate(1);
    let shreds: Vec<MerkleShred> =
        (0..10).map(|i| make_merkle_shred(&kp, 5, i, vec![i as u8; 100])).collect();
    let size = shred_wire_size(&shreds[0]);
    // Fourteen bytes go to the two tags, the slot and the count of the shreds.
    let batches = BatchRepairResponse::pack(5, shreds.clone(), 14 + 3 * size).unwrap();
    assert_eq!(batches.iter().map(|b| b.shreds.len()).collect::<Vec<usize>>(), vec![3, 3, 3, 1]);
    for b in &batches {
        let sent = TurbineMessage::BatchRepairResponse(b.clone()).serialize_to_bytes().unwrap();
        assert!(sent.len() <= 14 + 3 * size);
    }
    let all: Vec<MerkleShred> = batches.into_iter().flat_map(|b| b.shreds).collect();
    assert_eq!(all, shreds);
    match BatchRepairResponse::pack(5, shreds, 14 + size - 1).unwrap_err() {
        TurbineError::ShredTooLarge { size: s, max_size } => {
            assert_eq!((s, max_size), (14 + size, 14 + size - 1));
        }
        e => panic!("expected ShredTooLarge, got: {}", e.describe()),
    }
}

#[test]
fn message_bytes_are_those_of_its_parts() {
    let msg = TurbineMessage::RepairRequest(RepairRequest::ShredBatch { slot: 3, indices: vec![1, 9] });
    let bytes = msg.to_bytes().unwrap();
    assert_eq!(TurbineMessage::from_bytes(&bytes).unwrap(), msg);
    let highest = TurbineMessage::RepairRequest(RepairRequest::HighestShred { slot: 258 });
    let raw = highest.to_bytes().unwrap();
    assert_eq!(&raw[raw.len() - 8..], &[2, 1, 0, 0, 0, 0, 0, 0]);
    // A short message is sent raw behind its tag.
    let sent = highest.serialize_to_bytes().unwrap();
    assert_eq!(sent[0], TAG_RAW);
    assert_eq!(&sent[1..], &raw[..]);
    assert!(TurbineMessage::from_bytes(&raw[..raw.len() - 1]).is_err());
    let told = |bytes: &[u8]| TurbineMessage::deserialize_from_bytes(bytes).unwrap_err();
    assert_eq!(told(&[TAG_RAW, 99]), "Unexpected variant tag: 99");
    assert_eq!(told(&[TAG_RAW]), "Unexpected length of input");
    assert_eq!(told(&[TAG_RAW, 0, 1]), "Unexpected length of input");
    assert_eq!(told(&[TAG_RAW, 2, 7]), "Unexpected variant tag: 7");
    assert_eq!(told(&sent[..sent.len() - 1]), "Unexpected length of input");
    let mut long = sent.clone();
    long.push(0);
    assert_eq!(told(&long), "Not all bytes read");
    assert_eq!(told(&[]), TurbineError::Decompression("empty payload".to_string()).describe());
}

#[test]
fn compressed_frames_are_those_of_zstd() {
    let data = vec![7u8; 5000];
    let sent = compress(&data).unwrap();
    assert_eq!(sent[0], TAG_ZSTD);
    assert_eq!(&sent[1..], &zstd::encode_all(&data[..], ZSTD_LEVEL).unwrap()[..]);
    assert!(sent.len() < data.len());
    assert_eq!(decompress(&sent).unwrap(), data);
    assert!(decompress(&[TAG_ZSTD, 1, 2, 3]).is_err());
    assert_eq!(finish_decompress(Ok(vec![1])).unwrap(), vec![1]);
    assert!(finish_decompress(Err("broken".to_string())).is_err());
    assert!(finish_decompress(Ok(vec![0; MAX_DECOMPRESS_SIZE + 1])).is_err());
}

#[test]
fn erasure_errors() {
    let ec = ErasureCoder::new(4, 2);
    let short = ec.encode(&[vec![1], vec![2]]).unwrap_err();
    assert!(matches!(short, TurbineError::ErasureCoding(_)));
    let uneven = ec.encode(&[vec![1], vec![2], vec![3], vec![4, 5]]).unwrap_err();
    assert!(matches!(uneven, TurbineError::ErasureCoding(_)));
    let mut few = vec![Some(vec![1]), None];
    assert!(ec.recover(&mut few).is_err());
    let mut lost = vec![Some(vec![1u8]), Some(vec![2]), Some(vec![3]), None, None, None];
    match ec.recover(&mut lost).unwrap_err() {
        TurbineError::InsufficientShreds { have, need } => assert_eq!((have, need), (3, 4)),
        e => panic!("unexpected: {}", e.describe()),
    }
    assert!(ErasureCoder::new(0, 2).encode(&[]).unwrap().is_empty());
    assert!(ErasureCoder::new(1, 0).encode(&[vec![1]]).is_err());
    assert!(ErasureCoder::new(200, 57).encode(&vec![vec![1u8]; 200]).is_err());
    assert_eq!(ErasureCoder::from_fec_rate(2, 33).parity_shards(), 1);
    // The parity of equal shards is not one of the shards.
    let parity = ec.encode(&[vec![1, 2], vec![3, 4], vec![5, 6], vec![7, 8]]).unwrap();
    assert!(parity.iter().all(|p| p.len() == 2));
    assert_ne!(parity[0], parity[1]);
}

#[test]
fn sample_takes_places_of_their_own() {
    let peers: Vec<u16> = (0..40).collect();
    let mut sample = sample_peers(&peers, 39);
    sample.sort();
    sample.dedup();
    assert_eq!(sample.len(), 39);
    assert!(sample_peers::<u16>(&[], 3).is_empty());
    assert!(sample_peers(&peers, 0).is_empty());
}

fn small_shred(slot: u64, index: u32, flags: u8) -> MerkleDataShred {
    MerkleDataShred::new(
        DataShred { slot, index, parent_offset: 1, data: vec![1], flags },
        hash(b"leader"),
    )
}

#[test]
fn repair_asks_for_what_is_missing() {
    let mut collector = ShredCollector::new(1000, 1000);
    let mut repair = RepairService::new(2);
    collector.insert_data_shred(&small_shred(10, 5, 1), proof_ok);
    collector.insert_data_shred(&small_shred(10, 1, 0), proof_ok);
    collector.request_slot_repair(11);
    let slots = repair.begin_tick(&mut collector, 12, 9, 5_000);
    assert_eq!(slots.len(), 2);
    let asked = repair.requests_for_slot(&collector, 10, false, 5_000);
    assert_eq!(
        asked,
        vec![
            RepairRequest::BatchHeader { slot: 10 },
            RepairRequest::ShredBatch { slot: 10, indices: vec![0, 2] },
            RepairRequest::ShredBatch { slot: 10, indices: vec![3, 4] },
        ]
    );
    assert_eq!(
        repair.requests_for_slot(&collector, 11, false, 5_000),
        vec![RepairRequest::HighestShred { slot: 11 }]
    );
    // Not again before the pause is over.
    assert!(repair.requests_for_slot(&collector, 10, false, 5_000 + REPAIR_COOLDOWN_MS - 1).is_empty());
    assert_eq!(repair.requests_for_slot(&collector, 10, true, 5_050).len(), 3);
    // A slot that is gone by now is asked for like one of which nothing has arrived.
    assert_eq!(
        repair.requests_for_slot(&collector, 12, false, 5_050),
        vec![RepairRequest::HighestShred { slot: 12 }]
    );
    // Without peers nothing is asked for, and the slot can be asked for at once.
    let none: Vec<u16> = Vec::new();
    let (asked, chosen) = repair.repair_slot(&collector, 13, &none, false, 5_060);
    assert!(asked.is_empty() && chosen.is_empty());
    let peers: Vec<u16> = (0..9).collect();
    let (asked, chosen) = repair.repair_slot(&collector, 13, &peers, false, 5_060);
    assert_eq!(asked, vec![RepairRequest::HighestShred { slot: 13 }]);
    assert_eq!(chosen.len(), REPAIR_PEER_SAMPLE_SIZE);
    assert!(chosen.iter().all(|p| peers.contains(p)));
    assert!(repair.repair_slot(&collector, 13, &peers, false, 5_061).0.is_empty());
    assert_eq!(RepairService::peer_sample_size(false), REPAIR_PEER_SAMPLE_SIZE);
    assert!(RepairService::peer_sample_size(true) > REPAIR_PEER_SAMPLE_SIZE);
}

#[test]
fn repair_evicts_old_slots() {
    let mut collector = ShredCollector::new(1000, 1000);
    let mut repair = RepairService::new(2);
    collector.insert_data_shred(&small_shred(10, 0, 0), proof_ok);
    collector.insert_data_shred(&small_shred(2_000, 0, 0), proof_ok);
    let slots = repair.begin_tick(&mut collector, 2_001, 2_000, 0);
    assert_eq!(slots, vec![2_000]);
    assert!(!collector.has_slot(10));
}

#[test]
fn packets_are_routed() {
    let kp = Keypair::generate(1);
    let mut receiver = ShredReceiver::new();
    let shred = make_merkle_shred(&kp, 1, 0, vec![1; 50]);
    let one = TurbineMessage::Shred(shred.clone());
    assert_eq!(
        receiver.on_packet(&one.serialize_to_bytes().unwrap()),
        PacketAction::Forward(vec![TurbineMessage::Shred(shred.clone())])
    );
    let ask = TurbineMessage::RepairRequest(RepairRequest::Shred { slot: 1, index: 0 });
    assert_eq!(
        receiver.on_packet(&ask.serialize_to_bytes().unwrap()),
        PacketAction::Repair(TurbineMessage::RepairRequest(RepairRequest::Shred {
            slot: 1,
            index: 0,
        }))
    );
    let full = BatchRepairResponse { slot: 1, shreds: vec![shred.clone(); MAX_BATCH_RESPONSE_SHREDS] };
    match receiver.on_packet(&TurbineMessage::BatchRepairResponse(full).serialize_to_bytes().unwrap()) {
        PacketAction::Forward(list) => assert_eq!(list.len(), MAX_BATCH_RESPONSE_SHREDS),
        other => panic!("unexpected: {other:?}"),
    }
    let over = BatchRepairResponse { slot: 1, shreds: vec![shred; MAX_BATCH_RESPONSE_SHREDS + 1] };
    assert_eq!(
        receiver.on_packet(&TurbineMessage::BatchRepairResponse(over).serialize_to_bytes().unwrap()),
        PacketAction::DropOverCap(MAX_BATCH_RESPONSE_SHREDS + 1)
    );
    assert_eq!(receiver.on_packet(&[0xFF, 1]), PacketAction::DropMalformed);
}

#[test]
fn receiver_gives_up_after_many_errors() {
    let mut receiver = ShredReceiver::new();
    for _ in 1..MAX_CONSECUTIVE_ERRORS {
        assert_eq!(receiver.on_error(), ErrorAction::Backoff);
    }
    // A packet, even a malformed one, starts the count anew.
    receiver.on_packet(&[0xFF]);
    for _ in 1..MAX_CONSECUTIVE_ERRORS {
        assert_eq!(receiver.on_error(), ErrorAction::Backoff);
    }
    assert_eq!(receiver.on_error(), ErrorAction::Stop);
}

#[test]
fn broadcast_starts_with_the_header() {
    let kp = Keypair::generate(1);
    let batch = shred_block(&test_block(4), 3, &kp).unwrap();
    let messages = BroadcastStage::messages(&batch);
    assert_eq!(messages.len(), 1 + batch.data_shreds.len() + batch.code_shreds.len());
    assert_eq!(messages[0], TurbineMessage::ShredBatchHeader(batch.header.clone()));
    assert_eq!(
        messages[1],
        TurbineMessage::Shred(MerkleShred::Data(batch.data_shreds[0].clone()))
    );
    let packets = BroadcastStage::packets(&messages);
    assert_eq!(packets.len(), messages.len());
    assert_eq!(TurbineMessage::deserialize_from_bytes(&packets[0]).unwrap(), messages[0]);
    let nodes: Vec<Digest> = (10..15u8).map(|i| hash(&[i])).collect();
    let tree = tree_for(kp.address(), &nodes, &HashMap::new(), 4, 3);
    let lookup = |id: &Digest| nodes.iter().position(|n| n == id).map(|i| addr(i as u16));
    let sent = BroadcastStage::broadcast_block(
        &test_block(4),
        kp.address(),
        &tree,
        leaf_hash,
        merkle_tree,
        |root| kp.sign(root.as_bytes()),
        lookup,
    )
    .unwrap();
    assert_eq!(sent.packets, packets);
    assert_eq!(sent.peers.len(), 3);
    let first = tree.retransmit_peers(&kp.address());
    assert_eq!(Some(sent.peers[0]), lookup(&first[0]));
    let refused = BroadcastStage::broadcast_block(
        &test_block_after(4, 9),
        kp.address(),
        &tree,
        leaf_hash,
        merkle_tree,
        |_| Vec::new(),
        lookup,
    );
    assert!(matches!(refused, Err(TurbineError::BlockSerialization(_))));
}

/// The heavier stake stands first; the draw adds at most a hundredth.
#[test]
fn shuffle_goes_by_stake() {
    let node = |id: u8, stake: Option<u64>, luck: u8| ClusterNode {
        identity: hash(&[id]),
        stake,
        draw: Digest::new([luck; 64]),
    };
    let order = weighted_shuffle_turbine(&[node(1, Some(10), 0), node(2, Some(500), 0), node(3, None, 9)]);
    assert_eq!(order, vec![hash(&[2]), hash(&[1]), hash(&[3])]);
    // Equal stakes: the draw decides, and on a tie the place in the list.
    let order = weighted_shuffle_turbine(&[node(1, Some(5), 0), node(2, Some(5), 200), node(3, Some(5), 0)]);
    assert_eq!(order, vec![hash(&[2]), hash(&[1]), hash(&[3])]);
    let order = weighted_shuffle_turbine(&[node(1, Some(0), 0), node(2, Some(0), 200)]);
    assert_eq!(order, vec![hash(&[1]), hash(&[2])]);
}

#[test]
fn every_node_is_heard_from_above() {
    let leader = hash(b"leader");
    let nodes: Vec<Digest> = (0..60u8).map(|i| hash(&[i, 1])).collect();
    let tree = tree_for(leader, &nodes, &HashMap::new(), 9, 3);
    assert_eq!(tree.total_nodes(), 61);
    assert_eq!(tree.leader(), leader);
    let mut reached = tree.retransmit_peers(&leader);
    let mut next = 0;
    while next < reached.len() {
        let peers = tree.retransmit_peers(&reached[next]);
        assert!(peers.len() <= 3);
        for p in peers {
            assert!(tree.layer_of(&p) > tree.layer_of(&reached[next]));
            if !reached.contains(&p) {
                reached.push(p);
            }
        }
        next += 1;
    }
    assert_eq!(reached.len(), nodes.len());
    assert!(nodes.iter().all(|n| reached.contains(n)));
}

#[test]
fn turbine_error_texts() {
    assert_eq!(
        TurbineError::ShredTooLarge { size: 10, max_size: 9 }.describe(),
        "shred too large: 10 bytes (max 9)"
    );
    assert_eq!(
        TurbineError::InsufficientShreds { have: 3, need: 4 }.describe(),
        "erasure recovery failed: insufficient shreds (3/4)"
    );
    assert_eq!(
        TurbineError::ShredSignatureVerification { slot: 7, index: 2 }.describe(),
        "signature verification failed for shred slot=7 index=2"
    );
    assert_eq!(TurbineError::SlotAlreadyComplete { slot: 8 }.describe(), "slot 8 already complete");
    assert_eq!(TurbineError::Io("x".to_string()).describe(), "IO error: x");
}

#[test]
fn packed_batches_fit_on_the_wire() {
    let kp = Keypair::generate(1);
    let shred = make_merkle_shred(&kp, 5, 0, vec![7; 10]);
    let max = 14 + shred_wire_size(&shred);
    let batches = BatchRepairResponse::pack(5, vec![shred.clone()], max).unwrap();
    let msg = TurbineMessage::BatchRepairResponse(batches[0].clone());
    let sent = msg.serialize_to_bytes().unwrap();
    // Short enough to go out raw, it fills the packet to the last byte.
    assert_eq!((sent[0], sent.len()), (TAG_RAW, max));
    assert_eq!(TurbineMessage::deserialize_from_bytes(&sent).unwrap(), msg);
    assert!(BatchRepairResponse::pack(5, vec![shred], max - 1).is_err());
}

#[test]
fn long_messages_come_back() {
    let kp = Keypair::generate(1);
    let msg = TurbineMessage::Shred(make_merkle_shred(&kp, 5, 0, vec![7; 5000]));
    let sent = msg.serialize_to_bytes().unwrap();
    assert_eq!(sent[0], TAG_ZSTD);
    assert_eq!(TurbineMessage::deserialize_from_bytes(&sent).unwrap(), msg);
    let mut receiver = ShredReceiver::new();
    assert_eq!(receiver.on_packet(&sent), PacketAction::Forward(vec![msg.clone()]));
    assert_eq!(BroadcastStage::packets(&[msg]), vec![sent]);
    // What expands beyond the limit is compressed all the same, and not opened again.
    let big = vec![0u8; MAX_DECOMPRESS_SIZE + 1];
    assert!(decompress(&compress(&big).unwrap()).is_err());
    assert_eq!(decompress(&compress(&big[1..]).unwrap()).unwrap(), &big[1..]);
}
