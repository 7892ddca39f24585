use nusantara::digest::Digest;
use nusantara::ledger::{
    BatchEntry, CompiledInstruction, Message, SignedTransactionBatch, Transaction,
};
use nusantara::merkle::MerkleProof;
use nusantara::net::{Ip, PeerAddr};
use nusantara::tpu::compression::{compress, decompress, finish_decompress, peek};
use nusantara::tpu::connection_cache::{ConnectionCache, MAX_CACHED_CONNECTIONS};
use nusantara::tpu::error::{LimitReason, TpuError};
use nusantara::tpu::protocol::TpuMessage;
use nusantara::tpu::quic_server::{
    admit_connection, screen_batch, screen_stream, screen_transactions, Admission,
};
use nusantara::tpu::rate_limiter::{
    GlobalWindow, RateLimiter, MAX_CONNECTIONS_PER_IP, MAX_RATE_LIMITER_ENTRIES,
    MAX_TX_PER_SECOND_GLOBAL, MAX_TX_PER_SECOND_PER_IP,
};
use nusantara::zstd_frames::{TAG_RAW, TAG_ZSTD, ZSTD_LEVEL};

const SECOND: u64 = 1_000_000_000;

/// A moment.
const NOW: u64 = 77 * SECOND;

fn ip(a: u8, b: u8, c: u8, d: u8) -> Ip {
    (false, u32::from_be_bytes([a, b, c, d]) as u128)
}

fn local_ip() -> Ip {
    ip(127, 0, 0, 1)
}

fn addr(port: u16) -> PeerAddr {
    (local_ip(), port, 0, 0)
}

// Compression

#[test]
fn compression_roundtrip() {
    let data = vec![42u8; 1024];
    let compressed = compress(&data).unwrap();
    let decompressed = decompress(&compressed, 8192).unwrap();
    assert_eq!(data, decompressed);
}

#[test]
fn compression_below_threshold_raw() {
    let data = vec![1u8; 100];
    let compressed = compress(&data).unwrap();
    assert_eq!(compressed[0], TAG_RAW);
    assert_eq!(&compressed[1..], &data[..]);
}

#[test]
fn decompression_bomb_guard() {
    let data = vec![0u8; 4096];
    let compressed = compress(&data).unwrap();
    // Allow only 100 bytes — should fail
    assert!(decompress(&compressed, 100).is_err());
}

#[test]
fn compression_empty_payload_error() {
    assert!(compress(&[]).is_err());
    assert!(decompress(&[], 1024).is_err());
}

#[test]
fn compression_invalid_tag_error() {
    let bad = vec![0xFF, 1, 2, 3];
    assert!(decompress(&bad, 1024).is_err());
}

#[test]
fn raw_payload_exceeds_max() {
    // Build a raw-tagged payload larger than the limit
    let mut tagged = Vec::with_capacity(1 + 500);
    tagged.push(TAG_RAW);
    tagged.extend_from_slice(&vec![0xAB; 500]);

    let err = decompress(&tagged, 100).unwrap_err();
    assert!(
        err.describe().contains("exceeds max"),
        "error should mention exceeds max: {}",
        err.describe()
    );
}

#[test]
fn frames_are_those_of_zstd() {
    let data = vec![9u8; 3000];
    let sent = compress(&data).unwrap();
    assert_eq!(sent[0], TAG_ZSTD);
    assert_eq!(&sent[1..], &zstd::encode_all(&data[..], ZSTD_LEVEL).unwrap()[..]);
    assert_eq!(decompress(&sent, 3000).unwrap(), data);
    assert!(decompress(&sent, 2999).is_err());
    assert!(finish_decompress(Ok(vec![1, 2]), 1).is_err());
    assert_eq!(finish_decompress(Ok(vec![1, 2]), 2).unwrap(), vec![1, 2]);
    assert!(matches!(
        finish_decompress(Err("broken".to_string()), 2),
        Err(TpuError::Decompression(_))
    ));
    // The first byte can be seen without unpacking the rest.
    assert_eq!(peek(&sent), Some(9));
    assert_eq!(peek(&compress(&[4, 5]).unwrap()), Some(4));
    assert_eq!(peek(&[TAG_RAW]), None);
}

// Connection cache

#[test]
fn empty_cache() {
    let mut cache = ConnectionCache::new();
    let addr = addr(8000);
    assert!(cache.get(&addr).is_none());
    assert!(cache.is_empty());
}

#[test]
fn len_is_zero_initially() {
    let cache = ConnectionCache::new();
    assert_eq!(cache.len(), 0);
}

#[test]
fn entry_count_consistent_with_len_on_fresh_cache() {
    let cache = ConnectionCache::new();
    assert_eq!(
        cache.connections().len(),
        cache.len(),
        "entry_count drifted from true map size on empty cache"
    );
    assert_eq!(cache.len(), 0);
}

#[test]
fn cache_gives_back_connections() {
    let mut cache = ConnectionCache::new();
    cache.insert(addr(1), 11, &[]);
    cache.insert(addr(2), 12, &[]);
    cache.insert(addr(1), 13, &[]);
    assert_eq!(cache.len(), 2);
    assert_eq!(cache.get(&addr(1)), Some(13));
    assert_eq!(cache.get_open(&addr(2), &[]), Some(12));
    assert_eq!(cache.get_open(&addr(2), &[12]), None);
    assert_eq!(cache.get(&addr(2)), None);
    cache.insert(addr(3), 14, &[]);
    cache.prune_closed(&[13]);
    assert_eq!(cache.connections(), vec![14]);
    cache.remove(&addr(3));
    assert!(cache.is_empty());
}

#[test]
fn full_cache_makes_room() {
    let mut cache = ConnectionCache::new();
    for i in 0..MAX_CACHED_CONNECTIONS {
        cache.insert(addr(i as u16), i as u64, &[]);
    }
    assert_eq!(cache.get(&addr(0)), Some(0));
    // Nothing has closed: the least recently used goes, and that is no longer the first.
    cache.insert(addr(5000), 5000, &[]);
    assert_eq!(cache.len(), MAX_CACHED_CONNECTIONS);
    assert_eq!(cache.get(&addr(1)), None);
    assert_eq!(cache.get(&addr(0)), Some(0));
    // Closed ones go first.
    cache.insert(addr(5001), 5001, &[7, 8]);
    assert_eq!(cache.len(), MAX_CACHED_CONNECTIONS - 1);
    assert_eq!(cache.get(&addr(7)), None);
    assert_eq!(cache.get(&addr(2)), Some(2));
}

// Rate limiter

#[test]
fn rate_limiter_config_values() {
    assert_eq!(MAX_TX_PER_SECOND_PER_IP, 100);
    assert_eq!(MAX_TX_PER_SECOND_GLOBAL, 50000);
    assert_eq!(MAX_CONNECTIONS_PER_IP, 8);
}

#[test]
fn allows_within_limit() {
    let mut limiter = RateLimiter::new(NOW);
    for _ in 0..50 {
        assert!(limiter.check_rate_limit(local_ip(), NOW).is_ok());
    }
}

#[test]
fn rejects_over_per_ip_limit() {
    let mut limiter = RateLimiter::new(NOW);
    let ip = local_ip();
    for _ in 0..MAX_TX_PER_SECOND_PER_IP {
        assert!(limiter.check_rate_limit(ip, NOW).is_ok());
    }
    assert!(limiter.check_rate_limit(ip, NOW).is_err());
}

#[test]
fn different_ips_independent() {
    let mut limiter = RateLimiter::new(NOW);
    let ip1 = ip(1, 2, 3, 4);
    let ip2 = ip(5, 6, 7, 8);
    for _ in 0..MAX_TX_PER_SECOND_PER_IP {
        limiter.check_rate_limit(ip1, NOW).unwrap();
    }
    assert!(limiter.check_rate_limit(ip2, NOW).is_ok());
}

#[test]
fn check_rate_limit_n_batch() {
    let mut limiter = RateLimiter::new(NOW);
    let ip = local_ip();
    // Consume all per-IP tokens in one call.
    assert!(limiter.check_rate_limit_n(ip, MAX_TX_PER_SECOND_PER_IP, NOW).is_ok());
    // Next single token must be rejected.
    assert!(limiter.check_rate_limit(ip, NOW).is_err());
}

#[test]
fn try_add_connection_capacity_guard() {
    let mut limiter = RateLimiter::new(NOW);
    let ip = local_ip();
    for _ in 0..MAX_CONNECTIONS_PER_IP {
        assert!(limiter.try_add_connection(ip, NOW).is_ok());
    }
    assert!(limiter.try_add_connection(ip, NOW).is_err());
    limiter.remove_connection(ip);
    assert!(limiter.try_add_connection(ip, NOW).is_ok());
}

#[test]
fn try_add_connection_entry_cap() {
    let mut limiter = RateLimiter::new(NOW);
    // Baseline: fresh IP is accepted.
    assert!(limiter.try_add_connection(ip(192, 168, 0, 1), NOW).is_ok());
    // With as many addresses as are kept count of, a new one is not.
    for i in 1..MAX_RATE_LIMITER_ENTRIES {
        assert!(limiter.try_add_connection((true, i as u128), NOW).is_ok());
    }
    assert_eq!(limiter.entries(), MAX_RATE_LIMITER_ENTRIES);
    match limiter.try_add_connection(ip(192, 168, 0, 2), NOW) {
        Err(TpuError::RateLimited { reason }) => assert_eq!(reason, LimitReason::AtCapacity),
        _ => panic!("a new address was let in"),
    }
    assert!(limiter.try_add_connection(ip(192, 168, 0, 1), NOW).is_ok());
}

/// Ten addresses in turn, a thousand requests each.
#[test]
fn concurrent_rate_limit_respects_global() {
    let mut limiter = RateLimiter::new(NOW);
    let mut total = 0u64;
    for _ in 0..1000 {
        for i in 0..10u8 {
            // Use distinct IPs so per-IP limit does not interfere.
            if limiter.check_rate_limit(ip(10, 0, 0, i), NOW).is_ok() {
                total += 1;
            }
        }
    }
    assert!(
        total <= MAX_TX_PER_SECOND_GLOBAL,
        "total {total} exceeded global limit {MAX_TX_PER_SECOND_GLOBAL}"
    );
    assert_eq!(total, 10 * MAX_TX_PER_SECOND_PER_IP);
}

#[test]
fn global_window_lock_free_no_overcount() {
    let mut window = GlobalWindow::new(NOW);
    let mut granted = 0u64;
    let limit = 2u64;
    for _ in 0..4 {
        if window.try_consume(1, limit, NOW) {
            granted += 1;
        }
    }
    assert!(granted <= limit, "granted {granted} exceeded limit {limit}");
    assert_eq!(granted, limit);
}

#[test]
fn purge_expired_cleans_up() {
    let mut limiter = RateLimiter::new(NOW);
    let ip = local_ip();
    limiter.check_rate_limit(ip, NOW).unwrap();
    // Entry exists now.
    assert!(limiter.entries() > 0);
    // Purge should not remove it immediately (window < 2s).
    limiter.purge_expired(NOW);
    assert!(limiter.entries() > 0);
    limiter.purge_expired(NOW + 2 * SECOND - 1);
    assert!(limiter.entries() > 0);
    limiter.purge_expired(NOW + 2 * SECOND);
    assert_eq!(limiter.entries(), 0);
}

/// Per-IP rejection does not consume global tokens.
#[test]
fn per_ip_rejection_does_not_consume_global_tokens() {
    let mut limiter = RateLimiter::new(NOW);
    let own = local_ip();

    // Consume all per-IP tokens for this IP.
    for _ in 0..MAX_TX_PER_SECOND_PER_IP {
        assert!(limiter.check_rate_limit(own, NOW).is_ok());
    }

    // All subsequent requests from this IP must be rejected.
    for _ in 0..10 {
        assert!(limiter.check_rate_limit(own, NOW).is_err());
    }

    let other_ip = ip(10, 0, 0, 1);
    assert!(
        limiter.check_rate_limit_n(other_ip, MAX_TX_PER_SECOND_PER_IP, NOW).is_ok(),
        "global counter was over-consumed by per-IP rejections: \
         second IP could not consume its own per-IP budget"
    );

    let third_ip = ip(10, 0, 0, 2);
    assert!(
        limiter.check_rate_limit(third_ip, NOW).is_ok(),
        "global window exhausted prematurely — ghost consumption detected"
    );

    // With little room for all together, every token counts.
    let mut tight = RateLimiter::with_limits(NOW, 3, 5, 1);
    assert!(tight.check_rate_limit_n(own, 3, NOW).is_ok());
    for _ in 0..10 {
        assert!(tight.check_rate_limit(own, NOW).is_err());
    }
    assert!(tight.check_rate_limit_n(other_ip, 2, NOW).is_ok());
    match tight.check_rate_limit(third_ip, NOW) {
        Err(TpuError::RateLimited { reason }) => assert_eq!(reason, LimitReason::Global),
        _ => panic!("the limit for all was overrun"),
    }
}

/// Requests of one address, one after the other, keep one entry.
#[test]
fn concurrent_same_addr_does_not_double_count_entry() {
    let mut limiter = RateLimiter::new(NOW);
    let ip = ip(172, 16, 0, 1);
    for _ in 0..16 {
        let _ = limiter.check_rate_limit(ip, NOW);
    }
    assert_eq!(limiter.entries(), 1);
}

#[test]
fn tokens_come_back_every_second() {
    let mut limiter = RateLimiter::new(NOW);
    let ip = local_ip();
    assert!(limiter.check_rate_limit_n(ip, MAX_TX_PER_SECOND_PER_IP, NOW).is_ok());
    assert!(limiter.check_rate_limit(ip, NOW + SECOND - 1).is_err());
    assert!(limiter.check_rate_limit(ip, NOW + SECOND).is_ok());
    let mut window = GlobalWindow::new(NOW);
    assert!(window.try_consume(3, 3, NOW));
    assert!(!window.try_consume(1, 3, NOW + SECOND - 1));
    assert!(window.try_consume(1, 3, NOW + SECOND));
    assert!(!window.try_consume(4, 3, NOW + 9 * SECOND));
}

// Screening

fn hash(label: u8) -> Digest {
    Digest::new([label; 64])
}

fn transaction(label: u8) -> Transaction {
    Transaction {
        signatures: vec![vec![label]],
        signer_pubkeys: vec![vec![label]],
        message: Message {
            account_keys: vec![hash(label), hash(0)],
            recent_blockhash: hash(9),
            instructions: vec![CompiledInstruction {
                program_id_index: 1,
                accounts: vec![0],
                data: vec![label],
            }],
            num_required_signatures: 1,
            num_readonly_signed: 0,
            num_readonly_unsigned: 1,
        },
    }
}

fn odd_label(tx: &Transaction) -> Result<(), String> {
    if tx.signatures[0][0] % 2 == 1 {
        Ok(())
    } else {
        Err("even".to_string())
    }
}

fn entry(label: u8) -> BatchEntry {
    BatchEntry { message: transaction(label).message, proof: MerkleProof::empty() }
}

/// The transactions of a batch, as messages that nobody has signed one by one.
fn unsigned(batch: &SignedTransactionBatch) -> Vec<Transaction> {
    batch.entries.iter().map(|e| Transaction::new(e.message.clone())).collect()
}

#[test]
fn connections_are_admitted_up_to_the_limits() {
    let mut limiter = RateLimiter::with_limits(NOW, 10, 10, 2);
    let ip = local_ip();
    assert!(matches!(admit_connection(&mut limiter, ip, NOW, || true), Admission::Accepted));
    assert!(matches!(admit_connection(&mut limiter, ip, NOW, || false), Admission::ServerFull));
    // The refused one does not count. One that is over its limit takes no permit.
    assert!(matches!(admit_connection(&mut limiter, ip, NOW, || true), Admission::Accepted));
    match admit_connection(&mut limiter, ip, NOW, || panic!("no permit must be taken")) {
        Admission::OverLimit(e) => assert!(e.describe().starts_with("rate limited: ")),
        _ => panic!("one connection too many"),
    }
}

#[test]
fn addresses_are_told_in_their_usual_form() {
    let told = |ip: Ip| {
        let text = TpuError::RateLimited { reason: LimitReason::Connections(ip) }.describe();
        text.strip_prefix("rate limited: connection limit exceeded: ").unwrap().to_string()
    };
    assert_eq!(told(ip(192, 168, 0, 255)), "192.168.0.255");
    for (bits, text) in [
        (0, "::"),
        (1, "::1"),
        (1 << 112, "1::"),
        (0x2001_0db8_0000_0000_0000_0000_0000_0001, "2001:db8::1"),
        (0x2001_0db8_0000_0001_0001_0001_0001_0001, "2001:db8:0:1:1:1:1:1"),
        (0x2001_0000_0000_0001_0000_0000_0000_0001, "2001:0:0:1::1"),
        (0x2001_0db8_0000_0000_0001_0000_0000_0001, "2001:db8::1:0:0:1"),
        (0xfe80_0000_0000_0000_0000_0000_00ab_cdef, "fe80::ab:cdef"),
        (0x0001_0002_0003_0004_0005_0006_0007_0008, "1:2:3:4:5:6:7:8"),
        (0x0000_0001_0000_0000_0000_0000_0000_0000, "0:1::"),
        (0xffff_0a00_0001, "::ffff:10.0.0.1"),
        (0xfffe_0a00_0001, "::fffe:a00:1"),
        (0x0a00_0001, "::a00:1"),
        (u128::MAX, "ffff:ffff:ffff:ffff:ffff:ffff:ffff:ffff"),
    ] {
        assert_eq!(told((true, bits)), text);
    }
}

#[test]
fn screening_takes_a_token_for_each_transaction() {
    let mut limiter = RateLimiter::with_limits(NOW, 4, 100, 2);
    let ip = local_ip();
    let txs: Vec<Transaction> = (1..=3).map(transaction).collect();
    let screened = screen_transactions(&mut limiter, ip, txs, NOW, odd_label);
    assert!(!screened.close);
    assert_eq!(screened.accepted, vec![transaction(1), transaction(3)]);
    // One token is left: the second transaction closes the connection.
    let txs: Vec<Transaction> = vec![transaction(5), transaction(7)];
    let screened = screen_transactions(&mut limiter, ip, txs, NOW, odd_label);
    assert!(screened.close);
    assert_eq!(screened.accepted, vec![transaction(5)]);
}

#[test]
fn a_batch_is_let_in_whole_or_not_at_all() {
    let batch = || {
        Box::new(SignedTransactionBatch {
            signer_pubkey: vec![2],
            merkle_root: hash(1),
            signature: vec![1],
            entries: (1..=3).map(entry).collect(),
        })
    };
    let mut limiter = RateLimiter::with_limits(NOW, 4, 100, 2);
    let ip = local_ip();
    let forged = screen_batch(&mut limiter, ip, batch(), 100, NOW, |_| false, |_| true, unsigned);
    assert!(forged.accepted.is_empty() && !forged.close);
    let unproven = screen_batch(&mut limiter, ip, batch(), 100, NOW, |_| true, |_| false, unsigned);
    assert!(unproven.accepted.is_empty() && !unproven.close);
    let good = screen_batch(&mut limiter, ip, batch(), 100, NOW, |_| true, |_| true, unsigned);
    // What is let in is what the batch is said to stand for.
    let whole: Vec<Transaction> = (1..=3).map(|i| Transaction::new(transaction(i).message)).collect();
    assert_eq!(good.accepted, whole);
    assert!(!good.close);
    // One token is left.
    let over = screen_batch(&mut limiter, ip, batch(), 100, NOW, |_| true, |_| true, unsigned);
    assert!(over.accepted.is_empty() && over.close);
    assert!(limiter.check_rate_limit(ip, NOW).is_ok());
    assert_eq!(
        limiter.check_rate_limit(ip, NOW).unwrap_err().describe(),
        "rate limited: per-IP limit exceeded: 127.0.0.1"
    );
}

#[test]
fn streams_are_read_and_screened() {
    let mut limiter = RateLimiter::with_limits(NOW, 5, 100, 2);
    let ip = local_ip();
    let one = TpuMessage::Transaction(Box::new(transaction(3))).serialize_to_bytes().unwrap();
    let r = screen_stream(&mut limiter, ip, &one, NOW, |_| true, |_| true, unsigned, odd_label).unwrap();
    assert_eq!(r.accepted, vec![transaction(3)]);
    let two = TpuMessage::TransactionBatch(vec![transaction(4), transaction(5)]);
    let two = two.serialize_to_bytes().unwrap();
    let r = screen_stream(&mut limiter, ip, &two, NOW, |_| true, |_| true, unsigned, odd_label).unwrap();
    assert_eq!(r.accepted, vec![transaction(5)]);
    // Rubbish takes no tokens.
    assert!(screen_stream(&mut limiter, ip, &[9, 9], NOW, |_| true, |_| true, unsigned, odd_label).is_err());
    assert!(screen_stream(&mut limiter, ip, &[], NOW, |_| true, |_| true, unsigned, odd_label).is_err());
    let batch = TpuMessage::SignedBatch(Box::new(SignedTransactionBatch {
        signer_pubkey: vec![2],
        merkle_root: hash(1),
        signature: vec![1],
        entries: vec![entry(1)],
    }));
    let batch = batch.serialize_to_bytes().unwrap();
    let r = screen_stream(&mut limiter, ip, &batch, NOW, |_| false, |_| true, unsigned, odd_label).unwrap();
    assert!(r.accepted.is_empty() && !r.close);
    let r = screen_stream(&mut limiter, ip, &batch, NOW, |_| true, |_| true, unsigned, odd_label).unwrap();
    assert_eq!(r.accepted, vec![Transaction::new(transaction(1).message)]);
    assert!(limiter.check_rate_limit(ip, NOW).is_ok());
    assert!(limiter.check_rate_limit(ip, NOW).is_err());
}

fn long_transaction(label: u8, bytes: usize) -> Transaction {
    let mut tx = transaction(label);
    tx.message.instructions[0].data = vec![label; bytes];
    tx
}

/// Each transaction of a batch is judged by its own size.
#[test]
fn long_batches_of_short_transactions_are_let_in() {
    let mut limiter = RateLimiter::with_limits(NOW, 50, 100, 2);
    let ip = local_ip();
    let mut txs: Vec<Transaction> = (0..5).map(|i| long_transaction(2 * i + 1, 20_000)).collect();
    txs.insert(2, long_transaction(77, 70_000));
    let sent = TpuMessage::TransactionBatch(txs.clone()).serialize_to_bytes().unwrap();
    let r = screen_stream(&mut limiter, ip, &sent, NOW, |_| true, |_| true, unsigned, odd_label).unwrap();
    assert!(!r.close);
    txs.remove(2);
    assert_eq!(r.accepted, txs);
}

/// A message in its own wire form comes back if it breaks no limit, and a single
/// transaction is opened under the ceiling for single transactions.
#[test]
fn compressed_messages_are_opened_under_their_own_ceiling() {
    let fine = TpuMessage::Transaction(Box::new(long_transaction(1, 60_000)));
    let sent = fine.serialize_to_bytes().unwrap();
    assert_eq!((sent[0], peek(&sent)), (TAG_ZSTD, Some(0)));
    let (back, len) = TpuMessage::deserialize_from_bytes(&sent).unwrap();
    assert_eq!(back, fine);
    assert_eq!(len, decompress(&sent, 100_000).unwrap().len());
    let long = TpuMessage::Transaction(Box::new(long_transaction(1, 70_000)));
    let sent = long.serialize_to_bytes().unwrap();
    assert!(sent.len() < 1000);
    match TpuMessage::deserialize_from_bytes(&sent).unwrap_err() {
        TpuError::Decompression(text) => {
            assert_eq!(text, "decompressed output exceeds limit of 65536 bytes");
        }
        e => panic!("not opened, but: {}", e.describe()),
    }
    let batch = TpuMessage::TransactionBatch(vec![long_transaction(1, 70_000)]);
    let sent = batch.serialize_to_bytes().unwrap();
    assert_eq!(TpuMessage::deserialize_from_bytes(&sent).unwrap().0, batch);
}
