use nusantara::codec::to_vec;
use nusantara::digest::Digest;
use nusantara::ledger::{
    BatchEntry, CompiledInstruction, Message, SignedTransactionBatch, Transaction,
};
use nusantara::net::PeerAddr;
use nusantara::merkle::MerkleProof;
use nusantara::tpu::compression::compress;
use nusantara::tpu::error::TpuError;
use nusantara::tpu::forwarder::{
    forward_chunked, single_tx_borsh_size, Route, TransactionForwarder, FORWARD_BATCH_SIZE,
    FORWARD_INTERVAL_MS, MAX_FORWARD_STREAM_BYTES,
};
use nusantara::tpu::protocol::{
    TpuMessage, MAX_BATCH_ENTRIES, MAX_SINGLE_DECOMPRESSED, MAX_TRANSACTION_SIZE,
    MAX_UNSIGNED_BATCH_TXS,
};
use nusantara::tpu::tx_validator::{validate, validate_batch, MAX_BATCH_WIRE_SIZE};

/// A digest that tells labels apart.
fn hash(label: &[u8]) -> Digest {
    let mut bytes = [0u8; 64];
    for (i, b) in bytes.iter_mut().enumerate() {
        let mut acc = 131u32.wrapping_add(i as u32 * 2_654_435_761);
        for (j, &x) in label.iter().enumerate() {
            acc = acc.rotate_left(5).wrapping_mul(16_777_619) ^ (x as u32 + j as u32);
        }
        *b = (acc ^ (acc >> 8) ^ (acc >> 16) ^ (acc >> 24)) as u8;
    }
    Digest::new(bytes)
}

/// A key pair whose signatures are its public key.
struct Keypair {
    id: u8,
}

impl Keypair {
    fn generate(id: u8) -> Self {
        Keypair { id }
    }

    fn address(&self) -> Digest {
        hash(&[self.id])
    }

    fn public_key(&self) -> Vec<u8> {
        vec![self.id; 4]
    }

    fn sign(&self, _message: &[u8]) -> Vec<u8> {
        self.public_key()
    }

    fn sign_transaction(&self, tx: &mut Transaction) {
        tx.signatures = vec![self.sign(b"message")];
        tx.signer_pubkeys = vec![self.public_key()];
    }
}

fn verify(tx: &Transaction) -> Result<(), String> {
    if tx.signatures == tx.signer_pubkeys {
        Ok(())
    } else {
        Err("bad signature".to_string())
    }
}

fn valid_tx() -> Transaction {
    let kp = Keypair::generate(1);
    let payer = kp.address();
    let program = hash(b"program");

    let msg = Message {
        num_required_signatures: 1,
        num_readonly_signed: 0,
        num_readonly_unsigned: 1,
        account_keys: vec![payer, program],
        recent_blockhash: hash(b"blockhash"),
        instructions: vec![CompiledInstruction {
            program_id_index: 1,
            accounts: vec![0],
            data: vec![42],
        }],
    };
    let mut tx = Transaction::new(msg);
    kp.sign_transaction(&mut tx);
    tx
}

fn tx_serialized_size(tx: &Transaction) -> usize {
    to_vec(tx).unwrap().len()
}

#[test]
fn tx_validator_config_values() {
    assert_eq!(MAX_TRANSACTION_SIZE, 65536);
    assert_eq!(MAX_BATCH_ENTRIES, 64);
}

#[test]
fn valid_transaction_passes() {
    let tx = valid_tx();
    let size = tx_serialized_size(&tx);
    assert!(validate(&tx, size, verify).is_ok());
}

#[test]
fn no_signatures_fails() {
    let msg = Message {
        num_required_signatures: 1,
        num_readonly_signed: 0,
        num_readonly_unsigned: 0,
        account_keys: vec![hash(b"a")],
        recent_blockhash: hash(b"bh"),
        instructions: vec![],
    };
    let tx = Transaction::new(msg);
    assert!(validate(&tx, 100, verify).is_err());
}

#[test]
fn signature_count_mismatch() {
    let msg = Message {
        num_required_signatures: 2,
        num_readonly_signed: 0,
        num_readonly_unsigned: 0,
        account_keys: vec![hash(b"a"), hash(b"b")],
        recent_blockhash: hash(b"bh"),
        instructions: vec![],
    };
    let mut tx = Transaction::new(msg);
    let kp = Keypair::generate(1);
    tx.signatures = vec![kp.sign(&[0u8])];
    tx.signer_pubkeys = vec![kp.public_key()];
    let err = validate(&tx, 100, verify).unwrap_err().describe();
    assert!(
        err.contains("signature count") && err.contains("num_required_signatures"),
        "expected signature count mismatch error, got: {err:?}"
    );
}

#[test]
fn signer_pubkeys_count_mismatch() {
    let kp = Keypair::generate(1);
    let payer = kp.address();
    let program = hash(b"program");

    let msg = Message {
        num_required_signatures: 1,
        num_readonly_signed: 0,
        num_readonly_unsigned: 1,
        account_keys: vec![payer, program],
        recent_blockhash: hash(b"blockhash"),
        instructions: vec![CompiledInstruction {
            program_id_index: 1,
            accounts: vec![0],
            data: vec![42],
        }],
    };
    let mut tx = Transaction::new(msg);
    kp.sign_transaction(&mut tx);
    tx.signer_pubkeys.clear();
    let err = validate(&tx, 100, verify).unwrap_err().describe();
    assert!(
        err.contains("signer_pubkeys count"),
        "expected signer_pubkeys count mismatch error, got: {err:?}"
    );
}

#[test]
fn signature_verification_failure() {
    let kp = Keypair::generate(1);
    let kp2 = Keypair::generate(2);
    let payer = kp.address();
    let program = hash(b"program");

    let msg = Message {
        num_required_signatures: 1,
        num_readonly_signed: 0,
        num_readonly_unsigned: 1,
        account_keys: vec![payer, program],
        recent_blockhash: hash(b"blockhash"),
        instructions: vec![CompiledInstruction {
            program_id_index: 1,
            accounts: vec![0],
            data: vec![42],
        }],
    };
    let mut tx = Transaction::new(msg);
    kp.sign_transaction(&mut tx);
    tx.signer_pubkeys = vec![kp2.public_key()];
    let err = validate(&tx, 100, verify).unwrap_err().describe();
    assert!(
        err.contains("signature verification failed"),
        "expected signature verification error, got: {err:?}"
    );
}

#[test]
fn invalid_program_id_index() {
    let kp = Keypair::generate(1);
    let msg = Message {
        num_required_signatures: 1,
        num_readonly_signed: 0,
        num_readonly_unsigned: 0,
        account_keys: vec![kp.address()],
        recent_blockhash: hash(b"bh"),
        instructions: vec![CompiledInstruction {
            program_id_index: 99,
            accounts: vec![],
            data: vec![],
        }],
    };
    let mut tx = Transaction::new(msg);
    kp.sign_transaction(&mut tx);
    assert!(validate(&tx, 100, verify).is_err());
}

#[test]
fn rejects_oversized_tx() {
    let tx = valid_tx();
    let err = validate(&tx, MAX_TRANSACTION_SIZE as usize + 1, verify).unwrap_err();
    assert!(err.describe().contains("too large"));
}

#[test]
fn rejects_oversized_batch_wire() {
    // Build a minimal valid batch using the proper constructor.
    let kp = Keypair::generate(1);
    let msg = Message {
        num_required_signatures: 1,
        num_readonly_signed: 0,
        num_readonly_unsigned: 0,
        account_keys: vec![kp.address()],
        recent_blockhash: hash(b"bh"),
        instructions: vec![],
    };
    let batch = SignedTransactionBatch {
        signer_pubkey: vec![],
        merkle_root: hash(b"root"),
        signature: kp.sign(b"root"),
        entries: vec![BatchEntry { message: msg, proof: MerkleProof::empty() }],
    };
    // Pass a wire size exceeding MAX_BATCH_WIRE_SIZE — the absolute ceiling rejects it.
    let err = validate_batch(&batch, MAX_BATCH_WIRE_SIZE + 1, |_| true, |_| true).unwrap_err();
    assert!(err.describe().contains("too large"));
}

fn test_tx() -> Transaction {
    let msg = Message {
        num_required_signatures: 1,
        num_readonly_signed: 0,
        num_readonly_unsigned: 1,
        account_keys: vec![hash(b"payer"), hash(b"program")],
        recent_blockhash: hash(b"blockhash"),
        instructions: vec![],
    };
    Transaction::new(msg)
}

#[test]
fn single_tx_roundtrip() {
    let msg = TpuMessage::Transaction(Box::new(test_tx()));
    let bytes = msg.serialize_to_bytes().unwrap();
    let (decoded, decompressed_len) = TpuMessage::deserialize_from_bytes(&bytes).unwrap();
    assert_eq!(msg, decoded);
    assert!(decompressed_len > 0);
}

#[test]
fn batch_roundtrip() {
    let msg = TpuMessage::TransactionBatch(vec![test_tx(), test_tx()]);
    let bytes = msg.serialize_to_bytes().unwrap();
    let (decoded, decompressed_len) = TpuMessage::deserialize_from_bytes(&bytes).unwrap();
    assert_eq!(msg, decoded);
    assert!(decompressed_len > 0);
}

/// The transactions of a batch, as messages that nobody has signed one by one.
fn unsigned(batch: &SignedTransactionBatch) -> Vec<Transaction> {
    batch.entries.iter().map(|e| Transaction::new(e.message.clone())).collect()
}

#[test]
fn into_transactions_single() {
    let tx = test_tx();
    let msg = TpuMessage::Transaction(Box::new(tx));
    assert_eq!(msg.into_transactions(unsigned).len(), 1);
}

#[test]
fn into_transactions_batch() {
    let msg = TpuMessage::TransactionBatch(vec![test_tx(), test_tx()]);
    assert_eq!(msg.into_transactions(unsigned).len(), 2);
}

#[test]
fn unsigned_batch_too_many_entries_rejected() {
    // Build a batch exceeding MAX_UNSIGNED_BATCH_TXS by injecting raw borsh.
    // Serialize a batch with MAX+1 entries, manually decompress-check path.
    let count = MAX_UNSIGNED_BATCH_TXS as usize + 1;
    let txs: Vec<Transaction> = (0..count).map(|_| test_tx()).collect();
    let msg = TpuMessage::TransactionBatch(txs);
    // Serialize bypassing our own guard (raw borsh + compress)
    let raw = to_vec(&msg).unwrap();
    let wire = compress(&raw).unwrap();
    let err = TpuMessage::deserialize_from_bytes(&wire).unwrap_err();
    assert!(
        err.describe().contains("max"),
        "expected batch size error, got: {err:?}"
    );
}

#[test]
fn protocol_config_values() {
    assert_eq!(MAX_TRANSACTION_SIZE, 65536);
    assert_eq!(MAX_UNSIGNED_BATCH_TXS, 64);
    assert_eq!(MAX_BATCH_ENTRIES, 64);
}

#[test]
fn forwarder_config_values() {
    assert_eq!(FORWARD_BATCH_SIZE, 64);
    assert_eq!(FORWARD_INTERVAL_MS, 10);
    assert_eq!(MAX_FORWARD_STREAM_BYTES, 65536);
}

#[test]
fn single_tx_borsh_size_is_bounded() {
    let msg = Message {
        num_required_signatures: 1,
        num_readonly_signed: 0,
        num_readonly_unsigned: 1,
        account_keys: vec![hash(b"payer"), hash(b"program")],
        recent_blockhash: hash(b"blockhash"),
        instructions: vec![],
    };
    let tx = Transaction::new(msg);
    let size = single_tx_borsh_size(&tx);
    // Must be non-zero and below the 65 KB limit for a single small tx.
    assert!(size > 0);
    assert!(size < MAX_FORWARD_STREAM_BYTES as usize);
}

/// Verify off-by-one: a tx whose framed size exactly equals max_bytes is
/// accepted (not dropped), and a chunk that reaches exactly max_bytes is
/// sent as a single stream (not split into two).
#[test]
fn exact_fit_tx_is_not_dropped_or_split() {
    // The size accounting of `forward_chunked`, via `single_tx_borsh_size`.
    let msg = Message {
        num_required_signatures: 1,
        num_readonly_signed: 0,
        num_readonly_unsigned: 1,
        account_keys: vec![hash(b"payer"), hash(b"program")],
        recent_blockhash: hash(b"blockhash"),
        instructions: vec![],
    };
    let tx = Transaction::new(msg);
    let tx_size = single_tx_borsh_size(&tx);
    let framing = 5;

    // A tx whose framed size equals max_bytes must NOT be dropped.
    let max_bytes = framing + tx_size; // exact fit
    assert!(
        framing + tx_size <= max_bytes,
        "exact-fit tx incorrectly identified as oversized (off-by-one)"
    );

    // A chunk accumulating exactly max_bytes must NOT trigger a premature flush.
    let chunk_bytes = framing + tx_size; // exactly at limit
    assert!(
        chunk_bytes <= max_bytes,
        "exact-fit chunk incorrectly triggered early flush (off-by-one)"
    );
}

/// The error with which a transaction is refused, as text.
fn refused(tx: &Transaction, size: usize) -> String {
    validate(tx, size, verify).unwrap_err().describe()
}

#[test]
fn every_flaw_of_a_transaction_has_its_text() {
    let mut tx = valid_tx();
    tx.message.account_keys.clear();
    assert_eq!(refused(&tx, 100), "invalid transaction: transaction has no account keys");

    let mut tx = valid_tx();
    tx.signatures.clear();
    assert_eq!(refused(&tx, 100), "invalid transaction: transaction has no signatures");

    let mut tx = valid_tx();
    tx.message.num_required_signatures = 3;
    assert_eq!(
        refused(&tx, 100),
        "invalid transaction: signature count 1 != num_required_signatures 3"
    );

    let mut tx = valid_tx();
    tx.message.account_keys.truncate(1);
    tx.message.num_required_signatures = 2;
    tx.signatures.push(vec![1]);
    assert_eq!(
        refused(&tx, 100),
        "invalid transaction: fewer account keys than required signatures"
    );

    let mut tx = valid_tx();
    tx.message.instructions[0].program_id_index = 2;
    assert_eq!(
        refused(&tx, 100),
        "invalid transaction: instruction references invalid program_id_index"
    );

    let mut tx = valid_tx();
    tx.signer_pubkeys.clear();
    assert_eq!(
        refused(&tx, 100),
        "invalid transaction: signer_pubkeys count 0 != signature count 1"
    );

    assert_eq!(
        refused(&valid_tx(), 65537),
        "transaction too large: 65537 bytes (max 65536)"
    );

    let mut tx = valid_tx();
    tx.signer_pubkeys = vec![vec![9]];
    assert_eq!(
        refused(&tx, 100),
        "invalid transaction: signature verification failed: bad signature"
    );
}

#[test]
fn cheap_checks_come_before_signatures() {
    let mut tx = valid_tx();
    tx.message.account_keys.clear();
    let r = validate(&tx, 100, |_| panic!("signatures must not be checked"));
    assert!(r.is_err());
}

fn batch_of(n: usize) -> SignedTransactionBatch {
    SignedTransactionBatch {
        signer_pubkey: vec![4, 5],
        merkle_root: hash(b"root"),
        signature: vec![1, 2, 3],
        entries: (0..n)
            .map(|i| BatchEntry {
                message: valid_tx().message,
                proof: MerkleProof { hashes: vec![hash(b"leaf")], path: vec![i as u8] },
            })
            .collect(),
    }
}

#[test]
fn every_flaw_of_a_batch_is_told() {
    let told = |b: &SignedTransactionBatch, s: bool, p: bool| {
        validate_batch(b, 100, |_| s, |_| p).unwrap_err().describe()
    };
    assert_eq!(told(&batch_of(0), true, true), "invalid batch: empty batch");
    assert_eq!(
        told(&batch_of(65), true, true),
        "invalid batch: batch has 65 entries, max 64"
    );
    let mut b = batch_of(3);
    b.entries[1].message.account_keys.clear();
    assert_eq!(told(&b, true, true), "invalid batch: batch entry 1: no account keys");
    let mut b = batch_of(3);
    b.entries[2].message.instructions[0].program_id_index = 7;
    assert_eq!(told(&b, true, true), "invalid batch: batch entry 2: invalid program_id_index");
    assert!(told(&batch_of(2), false, true).contains("batch signature verification failed"));
    assert!(validate_batch(&batch_of(2), 100, |_| true, |_| false).is_err());
    assert!(validate_batch(&batch_of(64), MAX_BATCH_WIRE_SIZE, |_| true, |_| true).is_ok());
}

#[test]
fn signed_batch_roundtrip() {
    let msg = TpuMessage::SignedBatch(Box::new(batch_of(3)));
    let bytes = msg.serialize_to_bytes().unwrap();
    let (decoded, len) = TpuMessage::deserialize_from_bytes(&bytes).unwrap();
    assert_eq!(len, to_vec(&msg).unwrap().len());
    assert_eq!(msg, decoded);
    let unsigned_tx = Transaction::new(valid_tx().message);
    assert_eq!(
        decoded.into_transactions(unsigned),
        vec![unsigned_tx.clone(), unsigned_tx.clone(), unsigned_tx]
    );
}

#[test]
fn message_tags_are_in_declaration_order() {
    assert_eq!(to_vec(&TpuMessage::Transaction(Box::new(test_tx()))).unwrap()[0], 0);
    assert_eq!(to_vec(&TpuMessage::TransactionBatch(vec![])).unwrap(), vec![1, 0, 0, 0, 0]);
    assert_eq!(to_vec(&TpuMessage::SignedBatch(Box::new(batch_of(0)))).unwrap()[0], 2);
}

#[test]
fn large_single_transaction_is_held_to_its_own_limit() {
    let mut tx = test_tx();
    tx.signatures = vec![vec![7u8; MAX_SINGLE_DECOMPRESSED]];
    let msg = TpuMessage::Transaction(Box::new(tx));
    let wire = msg.serialize_to_bytes().unwrap();
    assert!(wire.len() < 1000);
    match TpuMessage::deserialize_from_bytes(&wire) {
        Err(TpuError::Decompression(_)) => {}
        other => panic!("expected a decompression error, got {other:?}"),
    }
}

#[test]
fn large_batch_is_within_the_batch_limit() {
    let mut tx = test_tx();
    tx.signatures = vec![vec![7u8; 60_000]];
    let msg = TpuMessage::TransactionBatch(vec![tx.clone(), tx]);
    let wire = msg.serialize_to_bytes().unwrap();
    let (decoded, len) = TpuMessage::deserialize_from_bytes(&wire).unwrap();
    assert!(len > 120_000);
    assert_eq!(decoded, msg);
}

#[test]
fn bytes_behind_a_message_are_refused() {
    let mut raw = to_vec(&TpuMessage::Transaction(Box::new(test_tx()))).unwrap();
    raw.push(0);
    let wire = compress(&raw).unwrap();
    assert_eq!(
        TpuMessage::deserialize_from_bytes(&wire),
        Err(TpuError::Deserialization("Not all bytes read".to_string()))
    );
    assert_eq!(
        TpuMessage::finish_deserialize(&[9, 9]),
        Err(TpuError::Deserialization("Unexpected variant tag: 9".to_string()))
    );
}

#[test]
fn forwarder_gathers_and_flushes() {
    let mut f = TransactionForwarder::new(hash(b"me"));
    assert!(f.flush().is_none());
    for _ in 0..FORWARD_BATCH_SIZE - 1 {
        assert!(f.on_transaction(test_tx()).is_none());
    }
    assert_eq!(f.on_transaction(test_tx()).unwrap().len(), 64);
    assert!(f.flush().is_none());
    assert!(f.on_transaction(test_tx()).is_none());
    assert_eq!(f.flush().unwrap().len(), 1);
    let addr: PeerAddr = ((false, 1), 9, 0, 0);
    assert_eq!(f.route(None), Route::Drop);
    assert_eq!(f.route(Some((hash(b"me"), addr))), Route::Local);
    assert_eq!(f.route(Some((hash(b"leader"), addr))), Route::Remote(addr));
}

#[test]
fn chunks_are_cut_where_the_next_would_not_fit() {
    let size = single_tx_borsh_size(&test_tx());
    let txs = |n: usize| (0..n).map(|_| test_tx()).collect::<Vec<_>>();
    // Two fit exactly.
    let chunks = forward_chunked(txs(5), 5 + 2 * size);
    assert_eq!(chunks.iter().map(|c| c.len()).collect::<Vec<_>>(), vec![2, 2, 1]);
    for c in chunks {
        let message = TpuMessage::TransactionBatch(c);
        assert!(to_vec(&message).unwrap().len() <= 5 + 2 * size);
    }
    // One byte less, and only one does.
    let chunks = forward_chunked(txs(3), 4 + 2 * size);
    assert_eq!(chunks.iter().map(|c| c.len()).collect::<Vec<_>>(), vec![1, 1, 1]);
    // None does.
    assert!(forward_chunked(txs(3), 4 + size).is_empty());
    // A transaction that never fits is dropped, the others are sent.
    let mut big = test_tx();
    big.signatures = vec![vec![0u8; 5000]];
    let chunks = forward_chunked(vec![test_tx(), big, test_tx()], 5 + 2 * size);
    assert_eq!(chunks.iter().map(|c| c.len()).collect::<Vec<_>>(), vec![2]);
}
