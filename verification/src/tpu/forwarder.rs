//! Gathering transactions into batches, and deciding where the batches go.

use crate::bytes::lemma_le_bytes_len;
use crate::codec::{items_layout, lemma_items_push, models, to_vec, Codec};
use crate::digest::Digest;
use crate::ledger::Transaction;
use crate::net::PeerAddr;
use crate::tpu::protocol::{MessageModel, TpuMessage};
use vstd::prelude::*;

verus! {

pub const FORWARD_BATCH_SIZE: u64 = 64;

pub const FORWARD_INTERVAL_MS: u64 = 10;

/// Maximum serialized wire size for a single forwarded QUIC stream, in bytes.
/// This matches the receiver's read limit so the stream is never rejected on the other
/// side.
pub const MAX_FORWARD_STREAM_BYTES: u64 = 65536;

/// Bytes of a batch message besides its transactions: the message tag and the count.
pub const FRAMING_OVERHEAD: usize = 5;

/// Where a batch goes.
#[derive(Clone, Copy, Debug, PartialEq, Eq)]
pub enum Route {
    /// To this node's own block producer.
    Local,
    /// To the leader at this address.
    Remote(PeerAddr),
    /// Nowhere: there is no leader.
    Drop,
}

/// Transactions on their way, not yet sent.
pub struct TransactionForwarder {
    my_identity: Digest,
    batch: Vec<Transaction>,
}

impl TransactionForwarder {
    pub closed spec fn identity(&self) -> Digest {
        self.my_identity
    }

    /// What has been gathered.
    pub closed spec fn pending(&self) -> Seq<Transaction> {
        self.batch@
    }

    pub fn new(my_identity: Digest) -> (r: Self)
        ensures
            r.identity() == my_identity,
            r.pending() == Seq::<Transaction>::empty(),
    {
        TransactionForwarder { my_identity, batch: Vec::new() }
    }

    /// A transaction came in. Once there are enough of them, the batch is to be flushed.
    pub fn on_transaction(&mut self, tx: Transaction) -> (r: Option<Vec<Transaction>>)
        ensures
            final(self).identity() == old(self).identity(),
            ({
                let all = old(self).pending().push(tx);
                if all.len() >= FORWARD_BATCH_SIZE {
                    &&& r matches Some(batch) && batch@ == all
                    &&& final(self).pending() == Seq::<Transaction>::empty()
                } else {
                    r is None && final(self).pending() == all
                }
            }),
    {
        self.batch.push(tx);
        if self.batch.len() >= FORWARD_BATCH_SIZE as usize {
            self.flush()
        } else {
            None
        }
    }

    /// Time is up, the source has closed, or the node shuts down: what there is, is to be
    /// flushed.
    pub fn flush(&mut self) -> (r: Option<Vec<Transaction>>)
        ensures
            final(self).identity() == old(self).identity(),
            final(self).pending() == Seq::<Transaction>::empty(),
            match r {
                Some(batch) => batch@ == old(self).pending() && batch@.len() > 0,
                None => old(self).pending().len() == 0,
            },
    {
        if self.batch.len() == 0 {
            assert(self.batch@ =~= Seq::<Transaction>::empty());
            return None;
        }
        let mut out: Vec<Transaction> = Vec::new();
        std::mem::swap(&mut out, &mut self.batch);
        Some(out)
    }

    /// Where a batch goes, given who leads and at which address.
    pub fn route(&self, leader: Option<(Digest, PeerAddr)>) -> (r: Route)
        ensures
            match leader {
                Some((id, addr)) => if id == self.identity() {
                    r is Local
                } else {
                    r == Route::Remote(addr)
                },
                None => r is Drop,
            },
    {
        match leader {
            Some((id, addr)) => {
                if id == self.my_identity {
                    Route::Local
                } else {
                    Route::Remote(addr)
                }
            },
            None => Route::Drop,
        }
    }
}

// ---------------------------------------------------------------------------
// Sub-batches
// ---------------------------------------------------------------------------

/// The bytes of a transaction: too many for any message where it has no layout.
pub open spec fn tx_bytes_of(tx: Transaction) -> nat {
    if <Transaction as Codec>::fits(tx.model()) {
        <Transaction as Codec>::layout(tx.model()).len()
    } else {
        usize::MAX as nat
    }
}

/// The number of bytes of a single transaction.
pub fn single_tx_borsh_size(tx: &Transaction) -> (r: usize)
    ensures
        r == tx_bytes_of(*tx),
        <Transaction as Codec>::fits(tx.model()) ==> r == <Transaction as Codec>::layout(
            tx.model(),
        ).len(),
{
    match to_vec(tx) {
        Ok(bytes) => bytes.len(),
        Err(_) => usize::MAX,
    }
}

/// The bytes of several transactions together.
pub open spec fn total_bytes(items: Seq<Transaction>) -> nat
    decreases items.len(),
{
    if items.len() == 0 {
        0
    } else {
        total_bytes(items.drop_last()) + tx_bytes_of(items.last())
    }
}

/// The transaction fits into a message on its own.
pub open spec fn sendable(item: Transaction, max_bytes: nat) -> bool {
    FRAMING_OVERHEAD + tx_bytes_of(item) <= max_bytes
}

/// The transactions that fit into a message on their own, in order.
pub open spec fn sendable_items(items: Seq<Transaction>, max_bytes: nat) -> Seq<Transaction>
    decreases items.len(),
{
    if items.len() == 0 {
        Seq::empty()
    } else {
        let before = sendable_items(items.drop_last(), max_bytes);
        if sendable(items.last(), max_bytes) {
            before.push(items.last())
        } else {
            before
        }
    }
}

/// The transactions of all chunks, one chunk behind the other.
pub open spec fn chunked(chunks: Seq<Vec<Transaction>>) -> Seq<Transaction>
    decreases chunks.len(),
{
    if chunks.len() == 0 {
        Seq::empty()
    } else {
        chunked(chunks.drop_last()) + chunks.last()@
    }
}

/// Every chunk fits into a message, none is empty, and none had room for the transaction
/// that starts the next.
pub open spec fn well_chunked(chunks: Seq<Vec<Transaction>>, max_bytes: nat) -> bool {
    &&& forall|i: int|
        0 <= i < chunks.len() ==> (#[trigger] chunks[i])@.len() > 0 && FRAMING_OVERHEAD
            + total_bytes(chunks[i]@) <= max_bytes
    &&& forall|i: int, j: int|
        0 <= i && j == i + 1 && j < chunks.len() ==> FRAMING_OVERHEAD + total_bytes(
            (#[trigger] chunks[i])@,
        ) + tx_bytes_of((#[trigger] chunks[j])@[0]) > max_bytes
}

proof fn lemma_another_chunk(
    chunks: Seq<Vec<Transaction>>,
    chunk: Vec<Transaction>,
    max_bytes: nat,
)
    requires
        well_chunked(chunks, max_bytes),
        chunk@.len() > 0,
        FRAMING_OVERHEAD + total_bytes(chunk@) <= max_bytes,
        chunks.len() > 0 ==> FRAMING_OVERHEAD + total_bytes(chunks.last()@) + tx_bytes_of(chunk@[0])
            > max_bytes,
    ensures
        well_chunked(chunks.push(chunk), max_bytes),
{
    let more = chunks.push(chunk);
    assert forall|i: int, j: int|
        0 <= i && j == i + 1 && j < more.len() implies FRAMING_OVERHEAD + total_bytes(
        (#[trigger] more[i])@,
    ) + tx_bytes_of((#[trigger] more[j])@[0]) > max_bytes by {
        if j < chunks.len() {
            assert(more[i] == chunks[i] && more[j] == chunks[j]);
        }
    }
}

/// Split transactions into sub-batches whose uncompressed size fits within `max_bytes`,
/// each to be sent as a stream of its own. A transaction that would never fit is dropped.
pub fn forward_chunked(items: Vec<Transaction>, max_bytes: usize) -> (r: Vec<Vec<Transaction>>)
    ensures
        chunked(r@) == sendable_items(items@, max_bytes as nat),
        well_chunked(r@, max_bytes as nat),
{
    let ghost all = items@;
    let mut chunks: Vec<Vec<Transaction>> = Vec::new();
    let mut chunk: Vec<Transaction> = Vec::new();
    let mut chunk_bytes: usize = FRAMING_OVERHEAD;
    assert(all.take(0) =~= Seq::empty());
    assert(chunked(chunks@) + chunk@ =~= Seq::empty());
    for item in it: items
        invariant
            it.seq() == all,
            chunked(chunks@) + chunk@ == sendable_items(
                all.take(it.index() as int),
                max_bytes as nat,
            ),
            chunk_bytes == FRAMING_OVERHEAD + total_bytes(chunk@),
            chunk@.len() > 0 ==> chunk_bytes <= max_bytes,
            chunk@.len() == 0 ==> chunks@.len() == 0,
            well_chunked(chunks@, max_bytes as nat),
            chunks@.len() > 0 ==> FRAMING_OVERHEAD + total_bytes(chunks@.last()@) + tx_bytes_of(
                chunk@[0],
            ) > max_bytes,
    {
        let ghost k = it.index() as int;
        assert(all.take(k + 1).drop_last() =~= all.take(k));
        assert(all.take(k + 1).last() == item);
        let tx_bytes: usize = single_tx_borsh_size(&item);
        if max_bytes >= FRAMING_OVERHEAD && tx_bytes <= max_bytes - FRAMING_OVERHEAD {
            assert(sendable(item, max_bytes as nat));
            if chunk.len() > 0 && tx_bytes > max_bytes - chunk_bytes {
                let ghost done = chunks@;
                let ghost full = chunk@;
                chunks.push(chunk);
                chunk = Vec::new();
                chunk_bytes = FRAMING_OVERHEAD;
                proof {
                    lemma_another_chunk(done, chunks@.last(), max_bytes as nat);
                    assert(chunks@ =~= done.push(chunks@.last()));
                    assert(chunks@.drop_last() =~= done);
                    assert(chunked(chunks@) + chunk@ =~= chunked(done) + full);
                    assert(total_bytes(chunk@) == 0);
                }
            }
            let ghost was = chunk@;
            assert(chunk_bytes == FRAMING_OVERHEAD + total_bytes(was));
            chunk_bytes = chunk_bytes + tx_bytes;
            chunk.push(item);
            proof {
                assert(chunk@.drop_last() =~= was);
                assert(total_bytes(chunk@) == total_bytes(was) + tx_bytes);
                assert(chunked(chunks@) + chunk@ =~= (chunked(chunks@) + was).push(item));
            }
        }
    }
    assert(all.take(all.len() as int) =~= all);
    if chunk.len() > 0 {
        let ghost done = chunks@;
        chunks.push(chunk);
        proof {
            lemma_another_chunk(done, chunks@.last(), max_bytes as nat);
            assert(chunks@ =~= done.push(chunks@.last()));
        }
        assert(chunks@.drop_last() =~= done);
    } else {
        assert(chunked(chunks@) + chunk@ =~= chunked(chunks@));
    }
    chunks
}

/// Where every transaction fits on its own, all of them are sent, in order.
pub proof fn nothing_sendable_is_dropped(items: Seq<Transaction>, max_bytes: nat)
    requires
        forall|i: int| 0 <= i < items.len() ==> sendable(#[trigger] items[i], max_bytes),
    ensures
        sendable_items(items, max_bytes) == items,
    decreases items.len(),
{
    if items.len() > 0 {
        let front = items.drop_last();
        assert forall|i: int| 0 <= i < front.len() implies sendable(
            #[trigger] front[i],
            max_bytes,
        ) by {
            assert(front[i] == items[i]);
        }
        nothing_sendable_is_dropped(front, max_bytes);
        assert(front.push(items.last()) =~= items);
    } else {
        assert(sendable_items(items, max_bytes) =~= items);
    }
}

proof fn lemma_list_bytes(items: Seq<Transaction>)
    requires
        forall|i: int|
            0 <= i < items.len() ==> <Transaction as Codec>::fits((#[trigger] items[i]).model()),
    ensures
        items_layout::<Transaction>(models(items)).len() == total_bytes(items),
    decreases items.len(),
{
    if items.len() > 0 {
        let front = items.drop_last();
        assert forall|i: int| 0 <= i < front.len() implies <Transaction as Codec>::fits(
            (#[trigger] front[i]).model(),
        ) by {
            assert(front[i] == items[i]);
        }
        lemma_list_bytes(front);
        assert(models(items) =~= models(front).push(items.last().model()));
        lemma_items_push::<Transaction>(models(front), items.last().model());
    }
}

/// The message of a chunk is as long as the chunk was reckoned to be, so that whoever reads
/// at most `max_bytes` reads all of it.
pub proof fn chunk_message_is_within_limit(chunk: Vec<Transaction>, max_bytes: nat)
    requires
        FRAMING_OVERHEAD + total_bytes(chunk@) <= max_bytes,
        forall|i: int|
            0 <= i < chunk@.len() ==> <Transaction as Codec>::fits((#[trigger] chunk@[i]).model()),
    ensures
        <TpuMessage as Codec>::layout(TpuMessage::TransactionBatch(chunk).model()).len()
            == FRAMING_OVERHEAD + total_bytes(chunk@),
        <TpuMessage as Codec>::layout(TpuMessage::TransactionBatch(chunk).model()).len()
            <= max_bytes,
{
    lemma_list_bytes(chunk@);
    lemma_le_bytes_len(chunk@.len(), 4);
}

/// A transaction is sent exactly if the message that holds it alone is within the limit: those
/// whose messages are too long are dropped, and all others stay, in order.
pub proof fn transactions_that_fit_a_message_are_sent(
    items: Seq<Transaction>,
    max_bytes: nat,
)
    requires
        max_bytes < usize::MAX,
    ensures
        forall|tx: Transaction| #[trigger]
            sendable_items(items, max_bytes).contains(tx) <==> items.contains(tx)
                && <Transaction as Codec>::fits(tx.model()) && <TpuMessage as Codec>::layout(
                MessageModel::TransactionBatch(seq![tx.model()]),
            ).len() <= max_bytes,
        (forall|i: int|
            0 <= i < items.len() ==> <Transaction as Codec>::fits((#[trigger] items[i]).model())
                && <TpuMessage as Codec>::layout(
                MessageModel::TransactionBatch(seq![items[i].model()]),
            ).len() <= max_bytes) ==> sendable_items(items, max_bytes) == items,
    decreases items.len(),
{
    if items.len() > 0 {
        let front = items.drop_last();
        let last = items.last();
        let before = sendable_items(front, max_bytes);
        let all = sendable_items(items, max_bytes);
        transactions_that_fit_a_message_are_sent(front, max_bytes);
        if <Transaction as Codec>::fits(last.model()) {
            lemma_alone(last);
        }
        assert forall|tx: Transaction| #[trigger] all.contains(tx) == (before.contains(tx) || (tx
            == last && sendable(last, max_bytes))) by {
            if before.contains(tx) {
                let i = choose|i: int| 0 <= i < before.len() && before[i] == tx;
                assert(all[i] == tx);
            }
            if sendable(last, max_bytes) {
                assert(all[before.len() as int] == last);
            }
        }
        assert forall|tx: Transaction| #[trigger] items.contains(tx) == (front.contains(tx) || tx
            == last) by {
            if front.contains(tx) {
                let i = choose|i: int| 0 <= i < front.len() && front[i] == tx;
                assert(items[i] == tx);
            }
            assert(items[items.len() - 1] == last);
            if items.contains(tx) && tx != last {
                let i = choose|i: int| 0 <= i < items.len() && items[i] == tx;
                assert(front[i] == tx);
            }
        }
        if forall|i: int|
            0 <= i < items.len() ==> <Transaction as Codec>::fits((#[trigger] items[i]).model())
                && <TpuMessage as Codec>::layout(
                MessageModel::TransactionBatch(seq![items[i].model()]),
            ).len() <= max_bytes {
            assert forall|i: int| 0 <= i < front.len() implies <Transaction as Codec>::fits(
                (#[trigger] front[i]).model(),
            ) && <TpuMessage as Codec>::layout(
                MessageModel::TransactionBatch(seq![front[i].model()]),
            ).len() <= max_bytes by {
                assert(front[i] == items[i]);
            }
            assert(items[items.len() - 1] == last);
            assert(front.push(last) =~= items);
        }
    } else {
        assert(sendable_items(items, max_bytes) =~= items);
    }
}

/// The message of a transaction on its own is as long as it was reckoned to be.
proof fn lemma_alone(tx: Transaction)
    requires
        <Transaction as Codec>::fits(tx.model()),
    ensures
        <TpuMessage as Codec>::layout(MessageModel::TransactionBatch(seq![tx.model()])).len()
            == FRAMING_OVERHEAD + tx_bytes_of(tx),
{
    let one = seq![tx.model()];
    lemma_le_bytes_len(1, 4);
    assert(one.drop_first() =~= Seq::empty());
    assert(items_layout::<Transaction>(one.drop_first()) =~= Seq::empty());
    assert(items_layout::<Transaction>(one) =~= <Transaction as Codec>::layout(tx.model()));
}

/// Chunks go out as full as may be: the message of a chunk is within the limit, and with the
/// transaction that starts the next chunk it would not be. No chunk is empty.
pub proof fn chunks_are_as_full_as_may_be(
    chunks: Seq<Vec<Transaction>>,
    max_bytes: nat,
    i: int,
)
    requires
        well_chunked(chunks, max_bytes),
        0 <= i < chunks.len(),
        forall|k: int, j: int|
            0 <= k < chunks.len() && 0 <= j < chunks[k]@.len() ==> <Transaction as Codec>::fits(
                (#[trigger] chunks[k]@[j]).model(),
            ),
    ensures
        chunks[i]@.len() > 0,
        <TpuMessage as Codec>::layout(TpuMessage::TransactionBatch(chunks[i]).model()).len()
            <= max_bytes,
        i + 1 < chunks.len() ==> <TpuMessage as Codec>::layout(
            MessageModel::TransactionBatch(models(chunks[i]@).push(chunks[i + 1]@[0].model())),
        ).len() > max_bytes,
{
    let chunk = chunks[i];
    assert forall|j: int| 0 <= j < chunk@.len() implies <Transaction as Codec>::fits(
        (#[trigger] chunk@[j]).model(),
    ) by {
        assert(chunks[i]@[j] == chunk@[j]);
    }
    chunk_message_is_within_limit(chunk, max_bytes);
    if i + 1 < chunks.len() {
        let next = chunks[i + 1]@[0];
        assert(chunks[i + 1]@.len() > 0);
        assert(<Transaction as Codec>::fits(next.model()));
        let more = chunk@.push(next);
        assert(more.drop_last() =~= chunk@);
        assert forall|j: int| 0 <= j < more.len() implies <Transaction as Codec>::fits(
            (#[trigger] more[j]).model(),
        ) by {
            if j < chunk@.len() {
                assert(more[j] == chunk@[j]);
            }
        }
        lemma_list_bytes(more);
        lemma_le_bytes_len(more.len(), 4);
        assert(models(more) =~= models(chunk@).push(next.model()));
    }
}

/// Transactions are forwarded in the order in which they came: one more comes behind those before
/// it, if a message can hold it, and is left out if none can. The chunks follow one another in that
/// order, too.
pub proof fn forwarded_transactions_keep_their_order(
    items: Seq<Transaction>,
    tx: Transaction,
    max_bytes: nat,
    chunks: Seq<Vec<Transaction>>,
    chunk: Vec<Transaction>,
)
    requires
        max_bytes < usize::MAX,
    ensures
        sendable_items(items.push(tx), max_bytes) == if <Transaction as Codec>::fits(tx.model())
            && <TpuMessage as Codec>::layout(
            MessageModel::TransactionBatch(seq![tx.model()]),
        ).len() <= max_bytes {
            sendable_items(items, max_bytes).push(tx)
        } else {
            sendable_items(items, max_bytes)
        },
        sendable_items(Seq::empty(), max_bytes) == Seq::<Transaction>::empty(),
        chunked(chunks.push(chunk)) == chunked(chunks) + chunk@,
        chunked(Seq::empty()) == Seq::<Transaction>::empty(),
{
    assert(items.push(tx).drop_last() =~= items);
    assert(chunks.push(chunk).drop_last() =~= chunks);
    if <Transaction as Codec>::fits(tx.model()) {
        lemma_alone(tx);
    }
}

} // verus!
