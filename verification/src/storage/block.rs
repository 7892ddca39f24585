//! Blocks and their headers.

use crate::bytes::{
    be_value, lemma_be_bytes_of_value, lemma_byte_ranges, lemma_lex_transitive, u64_from_be,
};
use crate::codec::{models, Codec};
use crate::digest::{lemma_digest_of, Digest};
use crate::ledger::{Block, BlockHeader, Transaction};
use crate::storage::cf::{
    Cf, CF_ADDRESS_SIGNATURES, CF_BLOCKS, CF_DEFAULT, CF_SLOT_META, CF_TRANSACTIONS,
};
use crate::storage::database::{
    comes_before, finite_rows_have_walks, lemma_walk, on_walk, reached, views, walk,
    walk_is_within_rows, Database, Walk, WalkModel,
};
use crate::storage::error::StorageError;
use crate::storage::keys::{
    address_sig_bytes, address_sig_key, address_sig_keys_are_distinct, full_block_bytes,
    full_block_key, full_block_keys_are_ordered, slot_bytes, slot_key, slot_keys_are_ordered,
};
use crate::storage::store::{
    agrees, changed, corruption, decode, decoded_front, decoded_inverts_encoded, encode_record,
    encoded, highest_slot_is_found, last_slot, outcome, put_record, raw, ErrorModel, Storage,
};
use crate::storage::write_batch::{
    apply, lemma_apply_put, lemma_apply_untouched, touches, Op, Rows,
    StorageWriteBatch,
};
use vstd::prelude::*;
use vstd::slice::slice_to_vec;

verus! {

pub type HeaderModel = <BlockHeader as Codec>::M;

pub type BlockModel = <Block as Codec>::M;

pub type TransactionModel = <Transaction as Codec>::M;

/// The change that stores the header of the block of a slot.
pub open spec fn header_ops(slot: u64, header: HeaderModel) -> Result<(Seq<Op>, ()), ErrorModel> {
    put_record::<BlockHeader>(CF_BLOCKS, slot_bytes(slot), header)
}

/// There is a header at a slot.
pub open spec fn has_header(rows: Rows, slot: u64) -> bool {
    rows.contains_key((CF_BLOCKS, slot_bytes(slot)))
}

/// The highest slot with a header.
pub open spec fn latest_slot(rows: Rows) -> Option<u64> {
    last_slot(rows, CF_BLOCKS)
}

/// The header of the block at a slot.
pub open spec fn header_at(rows: Rows, slot: u64) -> Result<Option<HeaderModel>, ErrorModel> {
    match raw(rows, CF_BLOCKS, slot_bytes(slot)) {
        Some(bytes) => match decoded_front::<BlockHeader>(bytes) {
            Ok(m) => Ok(Some(m)),
            Err(e) => Err(e),
        },
        None => Ok(None),
    }
}

/// The block at a slot.
pub open spec fn block_at(rows: Rows, slot: u64) -> Result<Option<BlockModel>, ErrorModel> {
    match raw(rows, CF_DEFAULT, full_block_bytes(slot)) {
        Some(bytes) => match decoded_front::<Block>(bytes) {
            Ok(m) => Ok(Some(m)),
            Err(e) => Err(e),
        },
        None => Ok(None),
    }
}

/// The transactions of a block.
pub open spec fn transactions_of(block: BlockModel) -> Seq<TransactionModel> {
    (block.1).0
}

/// The accounts that a transaction touches.
pub open spec fn accounts_of(tx: TransactionModel) -> Seq<Digest> {
    let message = (tx.1).1;
    (((message.1).1).1).0
}

/// The changes that store a block: its header, and the whole of it.
pub open spec fn block_ops(slot: u64, header: HeaderModel, block: BlockModel) -> Result<
    (Seq<Op>, ()),
    ErrorModel,
> {
    match (encoded::<BlockHeader>(header), encoded::<Block>(block)) {
        (Ok(header_bytes), Ok(block_bytes)) => Ok(
            (
                seq![
                    Op::Put(CF_BLOCKS, slot_bytes(slot), header_bytes),
                    Op::Put(CF_DEFAULT, full_block_bytes(slot), block_bytes),
                ],
                (),
            ),
        ),
        (Err(e), _) => Err(e),
        (_, Err(e)) => Err(e),
    }
}

/// The changes that take a transaction off the lists of the accounts that it touches.
pub open spec fn unlist_ops(slot: u64, tx_index: u32, accounts: Seq<Digest>) -> Seq<Op> {
    accounts.map_values(
        |a: Digest| Op::Delete(CF_ADDRESS_SIGNATURES, address_sig_bytes(a, slot, tx_index)),
    )
}

/// The changes that remove the transactions of a block, given their hashes.
pub open spec fn forget_ops(
    slot: u64,
    txs: Seq<TransactionModel>,
    hashes: Seq<Digest>,
) -> Seq<Op>
    decreases txs.len(),
{
    if txs.len() == 0 {
        Seq::empty()
    } else {
        forget_ops(slot, txs.drop_last(), hashes).push(
            Op::Delete(CF_TRANSACTIONS, hashes[txs.len() - 1]@),
        ) + unlist_ops(slot, (txs.len() - 1) as u32, accounts_of(txs.last()))
    }
}

/// The changes that remove a block: its header, the whole of it, what is known of its
/// slot, and its transactions.
pub open spec fn delete_ops(
    slot: u64,
    txs: Seq<TransactionModel>,
    hashes: Seq<Digest>,
) -> Seq<Op> {
    seq![
        Op::Delete(CF_BLOCKS, slot_bytes(slot)),
        Op::Delete(CF_DEFAULT, full_block_bytes(slot)),
        Op::Delete(CF_SLOT_META, slot_bytes(slot)),
    ] + forget_ops(slot, txs, hashes)
}

/// A header or a whole block is stored at a slot.
pub open spec fn has_block(rows: Rows, slot: u64) -> bool {
    rows.contains_key((CF_BLOCKS, slot_bytes(slot))) || rows.contains_key(
        (CF_DEFAULT, full_block_bytes(slot)),
    )
}

/// The changes that remove the block at a slot: none where there is no block.
pub open spec fn removal_ops(
    rows: Rows,
    slot: u64,
    txs: Seq<TransactionModel>,
    hashes: Seq<Digest>,
) -> Seq<Op> {
    if has_block(rows, slot) {
        delete_ops(slot, txs, hashes)
    } else {
        Seq::empty()
    }
}

/// `hashes` are what `hash` gives for the transactions.
pub open spec fn hashed<H: Fn(&Transaction) -> Digest>(
    hash: H,
    txs: Seq<Transaction>,
    hashes: Seq<Digest>,
) -> bool {
    &&& hashes.len() == txs.len()
    &&& forall|i: int| 0 <= i < txs.len() ==> hash.ensures((&#[trigger] txs[i],), hashes[i])
}

/// `txs` are the transactions of the block at a slot, or none where there is no block.
pub open spec fn stored_at(rows: Rows, slot: u64, txs: Seq<Transaction>) -> bool {
    match block_at(rows, slot) {
        Ok(Some(block)) => models(txs) == transactions_of(block),
        _ => txs.len() == 0,
    }
}

/// Headers from a slot on.
pub open spec fn header_walk(start_slot: u64, end_slot: u64) -> WalkModel {
    WalkModel {
        cf: CF_BLOCKS,
        prefix: Seq::empty(),
        start: Some(slot_bytes(start_slot)),
        key_len: None,
        reverse: false,
        limit: range_rows(start_slot, end_slot) as nat,
    }
}

/// How many rows are enough to see past the end of a range of slots: one for each slot,
/// and one more.
pub open spec fn range_rows(start_slot: u64, end_slot: u64) -> usize {
    if end_slot < start_slot {
        1
    } else if end_slot - start_slot + 2 > usize::MAX {
        usize::MAX
    } else {
        (end_slot - start_slot + 2) as usize
    }
}

/// What has been found of a range after some rows, and whether it goes on.
pub open spec fn headers_in(found: Seq<(Seq<u8>, Seq<u8>)>, end_slot: u64) -> (
    Result<Seq<HeaderModel>, ErrorModel>,
    bool,
)
    decreases found.len(),
{
    if found.len() == 0 {
        (Ok(Seq::empty()), true)
    } else {
        let (so_far, goes_on) = headers_in(found.drop_last(), end_slot);
        let (key, value) = found.last();
        if !goes_on || so_far is Err {
            (so_far, false)
        } else if key.len() != 8 {
            (Err(ErrorModel::Corruption("blocks CF key has unexpected length"@)), false)
        } else if be_value(key) > end_slot {
            (so_far, false)
        } else {
            match decoded_front::<BlockHeader>(value) {
                Err(e) => (Err(e), false),
                Ok(m) => (Ok(so_far->Ok_0.push(m)), true),
            }
        }
    }
}

/// The headers of a range of slots, both ends included, by slot.
pub open spec fn headers_range(rows: Rows, start_slot: u64, end_slot: u64) -> Result<
    Seq<HeaderModel>,
    ErrorModel,
> {
    headers_in(walk(rows, header_walk(start_slot, end_slot)), end_slot).0
}

proof fn lemma_headers_ended(found: Seq<(Seq<u8>, Seq<u8>)>, end_slot: u64, n: int)
    requires
        0 <= n <= found.len(),
        !headers_in(found.take(n), end_slot).1,
    ensures
        headers_in(found, end_slot).0 == headers_in(found.take(n), end_slot).0,
        !headers_in(found, end_slot).1,
    decreases found.len(),
{
    if n == found.len() {
        assert(found.take(n) =~= found);
    } else {
        assert(found.drop_last().take(n) =~= found.take(n));
        lemma_headers_ended(found.drop_last(), end_slot, n);
    }
}

proof fn lemma_digest_models(items: Seq<Digest>)
    ensures
        models(items) == items,
{
    assert(models(items) =~= items);
}

impl<D: Database> Storage<D> {
    /// Stores the header of a block.
    pub fn put_block_header(&mut self, header: &BlockHeader) -> (r: Result<(), StorageError>)
        ensures
            old(self).reliable() ==> final(self).reliable(),
            changed(
                old(self).reliable(),
                old(self).rows(),
                final(self).rows(),
                outcome(r),
                header_ops(header.slot, header.model()),
            ),
    {
        let key = slot_key(header.slot);
        self.put_record(CF_BLOCKS, key.as_slice(), header)
    }

    /// The header of the block at a slot.
    pub fn get_block_header(&self, slot: u64) -> (r: Result<Option<BlockHeader>, StorageError>)
        ensures
            agrees(self.reliable(), outcome(r), header_at(self.rows(), slot)),
    {
        let key = slot_key(slot);
        match self.get_cf(CF_BLOCKS, key.as_slice()) {
            Ok(Some(bytes)) => match decode::<BlockHeader>(bytes.as_slice()) {
                Ok(header) => Ok(Some(header)),
                Err(e) => Err(e),
            },
            Ok(None) => Ok(None),
            Err(e) => Err(e),
        }
    }

    /// Whether there is a header for a slot.
    pub fn has_block_header(&self, slot: u64) -> (r: Result<bool, StorageError>)
        ensures
            agrees(
                self.reliable(),
                outcome(r),
                Ok(has_header(self.rows(), slot)),
            ),
    {
        let key = slot_key(slot);
        match self.get_cf(CF_BLOCKS, key.as_slice()) {
            Ok(Some(_)) => Ok(true),
            Ok(None) => Ok(false),
            Err(e) => Err(e),
        }
    }

    /// Removes a block, with what became of its transactions and their places on the
    /// lists of addresses, all at once. Where there is no block nothing changes. `hash` gives
    /// the hash of a transaction.
    pub fn delete_block<H: Fn(&Transaction) -> Digest>(&mut self, slot: u64, hash: H) -> (r: Result<
        (),
        StorageError,
    >)
        requires
            forall|tx: &Transaction| hash.requires((tx,)),
        ensures
            old(self).reliable() ==> final(self).reliable(),
            exists|txs: Seq<Transaction>, hashes: Seq<Digest>|
                {
                    &&& #[trigger] hashed(hash, txs, hashes)
                    &&& r is Ok || final(self).rows() != old(self).rows() ==> stored_at(
                        old(self).rows(),
                        slot,
                        txs,
                    )
                    &&& changed(
                        old(self).reliable(),
                        old(self).rows(),
                        final(self).rows(),
                        outcome(r),
                        match block_at(old(self).rows(), slot) {
                            Ok(_) => Ok(
                                (removal_ops(old(self).rows(), slot, models(txs), hashes), ()),
                            ),
                            Err(e) => Err(e),
                        },
                    )
                },
    {
        let mut batch = StorageWriteBatch::new();
        let key = slot_key(slot);
        batch.delete(CF_BLOCKS, slice_to_vec(key.as_slice()));
        batch.delete(CF_DEFAULT, slice_to_vec(full_block_key(slot).as_slice()));
        batch.delete(CF_SLOT_META, slice_to_vec(key.as_slice()));
        let ghost first = seq![
            Op::Delete(CF_BLOCKS, slot_bytes(slot)),
            Op::Delete(CF_DEFAULT, full_block_bytes(slot)),
            Op::Delete(CF_SLOT_META, slot_bytes(slot)),
        ];
        assert(batch@ =~= first);
        let txs: Vec<Transaction> = match self.get_block(slot) {
            Ok(Some(block)) => {
                proof {
                    let m = block_at(self.rows(), slot)->Ok_0->0;
                    assert(<Block as Codec>::fits(m)) by {
                        let bytes = raw(self.rows(), CF_DEFAULT, full_block_bytes(slot))->0;
                        assert(decoded_front::<Block>(bytes) == Ok::<BlockModel, ErrorModel>(m));
                    }
                }
                block.transactions
            },
            Ok(None) => {
                proof {
                    assert(hashed(hash, Seq::<Transaction>::empty(), Seq::<Digest>::empty()));
                }
                match self.has_block_header(slot) {
                    Ok(true) => {},
                    Ok(false) => return Ok(()),
                    Err(e) => return Err(e),
                }
                Vec::new()
            },
            Err(e) => {
                proof {
                    assert(hashed(hash, Seq::<Transaction>::empty(), Seq::<Digest>::empty()));
                }
                return Err(e);
            },
        };
        assert(has_block(self.rows(), slot));
        let n: usize = txs.len();
        let ghost mut hashes: Seq<Digest> = Seq::empty();
        let mut i: usize = 0;
        assert(models(txs@).take(0) =~= Seq::<TransactionModel>::empty());
        assert(first + forget_ops(slot, models(txs@).take(0), hashes) =~= first);
        while i < n
            invariant
                i <= n == txs@.len(),
                n <= u32::MAX,
                *self == *old(self),
                has_block(self.rows(), slot),
                first == seq![
                    Op::Delete(CF_BLOCKS, slot_bytes(slot)),
                    Op::Delete(CF_DEFAULT, full_block_bytes(slot)),
                    Op::Delete(CF_SLOT_META, slot_bytes(slot)),
                ],
                forall|tx: &Transaction| hash.requires((tx,)),
                hashed(hash, txs@.take(i as int), hashes),
                batch@ == first + forget_ops(slot, models(txs@).take(i as int), hashes),
            decreases n - i,
        {
            let ghost before = batch@;
            let ghost known = hashes;
            let tx_hash = hash(&txs[i]);
            proof {
                hashes = hashes.push(tx_hash);
                let part = txs@.take(i + 1);
                assert forall|k: int| 0 <= k < part.len() implies hash.ensures(
                    (&#[trigger] part[k],),
                    hashes[k],
                ) by {
                    if k < i {
                        assert(part[k] == txs@.take(i as int)[k]);
                    }
                }
            }
            batch.delete(CF_TRANSACTIONS, slice_to_vec(tx_hash.as_bytes().as_slice()));
            let keys = &txs[i].message.account_keys;
            let m: usize = keys.len();
            let mut j: usize = 0;
            let ghost removed = before.push(Op::Delete(CF_TRANSACTIONS, tx_hash@));
            let ghost tx_index = i as u32;
            assert(batch@ =~= removed + unlist_ops(slot, tx_index, keys@.take(0)));
            while j < m
                invariant
                    j <= m == keys@.len(),
                    i < n <= u32::MAX,
                    tx_index == i as u32,
                    batch@ == removed + unlist_ops(slot, tx_index, keys@.take(j as int)),
                decreases m - j,
            {
                let sig_key = address_sig_key(&keys[j], slot, i as u32);
                batch.delete(CF_ADDRESS_SIGNATURES, slice_to_vec(sig_key.as_slice()));
                j = j + 1;
                assert(batch@ =~= removed + unlist_ops(slot, tx_index, keys@.take(j as int)));
            }
            proof {
                assert(keys@.take(m as int) =~= keys@);
                lemma_digest_models(keys@);
                let next = models(txs@).take(i + 1);
                assert(next.drop_last() =~= models(txs@).take(i as int));
                assert(next.last() == txs@[i as int].model());
                assert(accounts_of(next.last()) == keys@);
                lemma_forget_prefix(slot, models(txs@).take(i as int), known, hashes);
                assert(batch@ =~= first + forget_ops(slot, next, hashes));
            }
            i = i + 1;
        }
        proof {
            assert(txs@.take(n as int) =~= txs@);
            assert(models(txs@).take(n as int) =~= models(txs@));
        }
        let r = self.write(&batch);
        assert(hashed(hash, txs@, hashes));
        r
    }

    /// Stores a block, and its header on its own beside it, at once.
    pub fn put_block(&mut self, block: &Block) -> (r: Result<(), StorageError>)
        ensures
            old(self).reliable() ==> final(self).reliable(),
            changed(
                old(self).reliable(),
                old(self).rows(),
                final(self).rows(),
                outcome(r),
                block_ops(block.header.slot, block.header.model(), block.model()),
            ),
    {
        let header_value = match encode_record(&block.header) {
            Ok(value) => value,
            Err(e) => return Err(e),
        };
        let block_value = match encode_record(block) {
            Ok(value) => value,
            Err(e) => return Err(e),
        };
        let slot: u64 = block.header.slot;
        let mut batch = StorageWriteBatch::new();
        batch.put(CF_BLOCKS, slice_to_vec(slot_key(slot).as_slice()), header_value);
        batch.put(CF_DEFAULT, slice_to_vec(full_block_key(slot).as_slice()), block_value);
        assert(batch@ =~= (block_ops(slot, block.header.model(), block.model())->Ok_0).0);
        self.write(&batch)
    }

    /// The block at a slot.
    pub fn get_block(&self, slot: u64) -> (r: Result<Option<Block>, StorageError>)
        ensures
            agrees(self.reliable(), outcome(r), block_at(self.rows(), slot)),
    {
        let key = full_block_key(slot);
        match self.get_cf(CF_DEFAULT, key.as_slice()) {
            Ok(Some(bytes)) => match decode::<Block>(bytes.as_slice()) {
                Ok(block) => Ok(Some(block)),
                Err(e) => Err(e),
            },
            Ok(None) => Ok(None),
            Err(e) => Err(e),
        }
    }

    /// The highest slot that has a header.
    pub fn get_latest_slot(&self) -> (r: Result<Option<u64>, StorageError>)
        ensures
            agrees(self.reliable(), outcome(r), Ok(latest_slot(self.rows()))),
    {
        self.get_last_slot(CF_BLOCKS)
    }

    /// The headers of a range of slots, both ends included.
    pub fn get_block_headers_range(&self, start_slot: u64, end_slot: u64) -> (r: Result<
        Vec<BlockHeader>,
        StorageError,
    >)
        ensures
            agrees(
                self.reliable(),
                outcome(r),
                headers_range(self.rows(), start_slot, end_slot),
            ),
    {
        let limit: usize = if end_slot < start_slot {
            1
        } else {
            let more: u64 = end_slot - start_slot;
            if more >= usize::MAX as u64 - 1 {
                usize::MAX
            } else {
                more as usize + 2
            }
        };
        let w = Walk {
            cf: CF_BLOCKS,
            prefix: Vec::new(),
            start: Some(slice_to_vec(slot_key(start_slot).as_slice())),
            key_len: None,
            reverse: false,
            limit,
        };
        let rows = match self.db.scan(&w) {
            Ok(rows) => rows,
            Err(e) => return Err(e),
        };
        let ghost found = views(rows@);
        proof {
            assert(w.prefix@ =~= Seq::<u8>::empty());
            assert(w@ == header_walk(start_slot, end_slot));
            lemma_walk(self.rows(), w@, found);
        }
        let n: usize = rows.len();
        let mut headers: Vec<BlockHeader> = Vec::new();
        let mut i: usize = 0;
        assert(found.take(0) =~= Seq::<(Seq<u8>, Seq<u8>)>::empty());
        assert(models(headers@) =~= Seq::<HeaderModel>::empty());
        while i < n
            invariant
                i <= n == rows@.len(),
                found == views(rows@),
                found == walk(self.rows(), header_walk(start_slot, end_slot)),
                headers_in(found.take(i as int), end_slot) == (
                    Ok::<Seq<HeaderModel>, ErrorModel>(models(headers@)),
                    true,
                ),
            decreases n - i,
        {
            proof {
                assert(found.take(i + 1).drop_last() =~= found.take(i as int));
                assert(found.take(i + 1).last() == rows@[i as int]@);
            }
            if rows[i].key.len() != 8 {
                proof {
                    lemma_headers_ended(found, end_slot, i + 1);
                }
                return Err(corruption("blocks CF key has unexpected length"));
            }
            assert(rows@[i as int].key@.subrange(0, 8) =~= rows@[i as int].key@);
            let slot: u64 = u64_from_be(rows[i].key.as_slice(), 0);
            if slot > end_slot {
                proof {
                    lemma_headers_ended(found, end_slot, i + 1);
                }
                return Ok(headers);
            }
            match decode::<BlockHeader>(rows[i].value.as_slice()) {
                Ok(header) => {
                    let ghost before = headers@;
                    headers.push(header);
                    assert(models(headers@) =~= models(before).push(header.model()));
                },
                Err(e) => {
                    proof {
                        lemma_headers_ended(found, end_slot, i + 1);
                    }
                    return Err(e);
                },
            }
            i = i + 1;
        }
        assert(found.take(n as int) =~= found);
        Ok(headers)
    }
}

/// Only the hashes of the transactions matter, not what follows them.
proof fn lemma_forget_prefix(
    slot: u64,
    txs: Seq<TransactionModel>,
    a: Seq<Digest>,
    b: Seq<Digest>,
)
    requires
        txs.len() <= a.len(),
        txs.len() <= b.len(),
        forall|i: int| 0 <= i < txs.len() ==> a[i] == b[i],
    ensures
        forget_ops(slot, txs, a) == forget_ops(slot, txs, b),
    decreases txs.len(),
{
    if txs.len() > 0 {
        lemma_forget_prefix(slot, txs.drop_last(), a, b);
    }
}

/// A block that was stored reads back, and so does its header.
pub proof fn stored_block_reads_back(
    rows: Rows,
    slot: u64,
    header: HeaderModel,
    block: BlockModel,
)
    requires
        <Block as Codec>::fits(block),
    ensures
        ({
            let ops = block_ops(slot, header, block);
            let after = apply(rows, (ops->Ok_0).0);
            &&& ops is Ok
            &&& header_at(after, slot) == Ok::<Option<HeaderModel>, ErrorModel>(Some(header))
            &&& block_at(after, slot) == Ok::<Option<BlockModel>, ErrorModel>(Some(block))
        }),
{
    assert(<BlockHeader as Codec>::fits(header));
    decoded_inverts_encoded::<BlockHeader>(header);
    decoded_inverts_encoded::<Block>(block);
    lemma_two_puts(
        rows,
        slot,
        <BlockHeader as Codec>::layout(header),
        <Block as Codec>::layout(block),
    );
}

proof fn lemma_two_puts(rows: Rows, slot: u64, header: Seq<u8>, block: Seq<u8>)
    ensures
        ({
            let after = apply(
                rows,
                seq![
                    Op::Put(CF_BLOCKS, slot_bytes(slot), header),
                    Op::Put(CF_DEFAULT, full_block_bytes(slot), block),
                ],
            );
            &&& raw(after, CF_BLOCKS, slot_bytes(slot)) == Some(header)
            &&& raw(after, CF_DEFAULT, full_block_bytes(slot)) == Some(block)
        }),
{
    let ops = seq![
        Op::Put(CF_BLOCKS, slot_bytes(slot), header),
        Op::Put(CF_DEFAULT, full_block_bytes(slot), block),
    ];
    lemma_apply_put(rows, ops, 0);
    lemma_apply_put(rows, ops, 1);
}

/// Every change among those that remove the transactions of a block is a deletion.
proof fn lemma_forget_ops(slot: u64, txs: Seq<TransactionModel>, hashes: Seq<Digest>, i: int)
    requires
        0 <= i < forget_ops(slot, txs, hashes).len(),
        txs.len() <= hashes.len(),
    ensures
        ({
            let op = forget_ops(slot, txs, hashes)[i];
            &&& op is Delete
            &&& op->Delete_0 == CF_TRANSACTIONS || op->Delete_0 == CF_ADDRESS_SIGNATURES
        }),
    decreases txs.len(),
{
    if txs.len() > 0 {
        let front = forget_ops(slot, txs.drop_last(), hashes);
        if i < front.len() {
            lemma_forget_ops(slot, txs.drop_last(), hashes, i);
            assert(forget_ops(slot, txs, hashes)[i] == front[i]);
        }
    }
}

/// Among the changes that remove the transactions of a block is one for each transaction,
/// and one for each place of it on a list.
proof fn lemma_forget_has(
    slot: u64,
    txs: Seq<TransactionModel>,
    hashes: Seq<Digest>,
    i: int,
    j: int,
)
    requires
        0 <= i < txs.len(),
        txs.len() <= hashes.len(),
    ensures
        forget_ops(slot, txs, hashes).contains(Op::Delete(CF_TRANSACTIONS, hashes[i]@)),
        0 <= j < accounts_of(txs[i]).len() ==> forget_ops(slot, txs, hashes).contains(
            Op::Delete(
                CF_ADDRESS_SIGNATURES,
                address_sig_bytes(accounts_of(txs[i])[j], slot, i as u32),
            ),
        ),
    decreases txs.len(),
{
    let all = forget_ops(slot, txs, hashes);
    let front = forget_ops(slot, txs.drop_last(), hashes);
    if i < txs.len() - 1 {
        lemma_forget_has(slot, txs.drop_last(), hashes, i, j);
        let a = front.index_of(Op::Delete(CF_TRANSACTIONS, hashes[i]@));
        assert(all[a] == front[a]);
        if 0 <= j < accounts_of(txs[i]).len() {
            let op = Op::Delete(
                CF_ADDRESS_SIGNATURES,
                address_sig_bytes(accounts_of(txs[i])[j], slot, i as u32),
            );
            let b = front.index_of(op);
            assert(all[b] == front[b]);
        }
    } else {
        assert(all[front.len() as int] == Op::Delete(CF_TRANSACTIONS, hashes[i]@));
        if 0 <= j < accounts_of(txs[i]).len() {
            let op = Op::Delete(
                CF_ADDRESS_SIGNATURES,
                address_sig_bytes(accounts_of(txs[i])[j], slot, i as u32),
            );
            assert(all[front.len() + 1 + j] == op);
        }
    }
}

/// A deletion among changes that put nothing.
proof fn lemma_deleted(rows: Rows, ops: Seq<Op>, cf: Cf, key: Seq<u8>)
    requires
        ops.contains(Op::Delete(cf, key)),
        forall|i: int| 0 <= i < ops.len() ==> !(#[trigger] ops[i] is Put),
    ensures
        !apply(rows, ops).contains_key((cf, key)),
    decreases ops.len(),
{
    let front = ops.drop_last();
    let at = ops.index_of(Op::Delete(cf, key));
    if at < front.len() {
        assert(front[at] == ops[at]);
        assert(front.contains(Op::Delete(cf, key)));
        assert forall|i: int| 0 <= i < front.len() implies !(#[trigger] front[i] is Put) by {
            assert(front[i] == ops[i]);
        }
        lemma_deleted(rows, front, cf, key);
        assert(!(ops[ops.len() - 1] is Put));
    }
}

/// A deleted block leaves nothing behind: no header, no block, nothing known of its slot,
/// nothing of what became of its transactions, and no place of them on the list of an
/// address. What is in other column families stays, and where there is no block nothing
/// changes.
pub proof fn deleted_block_leaves_nothing(
    rows: Rows,
    slot: u64,
    txs: Seq<TransactionModel>,
    hashes: Seq<Digest>,
)
    requires
        hashes.len() == txs.len(),
    ensures
        ({
            let after = apply(rows, removal_ops(rows, slot, txs, hashes));
            &&& !has_block(rows, slot) ==> after == rows
            &&& header_at(after, slot) == Ok::<Option<HeaderModel>, ErrorModel>(None)
            &&& block_at(after, slot) == Ok::<Option<BlockModel>, ErrorModel>(None)
            &&& has_block(rows, slot) ==> raw(after, CF_SLOT_META, slot_bytes(slot)) is None
            &&& forall|i: int|
                has_block(rows, slot) && 0 <= i < txs.len() ==> raw(
                    after,
                    CF_TRANSACTIONS,
                    (#[trigger] hashes[i])@,
                ) is None
            &&& forall|i: int, j: int|
                has_block(rows, slot) && 0 <= i < txs.len() && 0 <= j < accounts_of(txs[i]).len()
                    ==> raw(
                    after,
                    CF_ADDRESS_SIGNATURES,
                    #[trigger] address_sig_bytes(accounts_of(txs[i])[j], slot, i as u32),
                ) is None
            &&& forall|cf: Cf, k: Seq<u8>|
                cf != CF_BLOCKS && cf != CF_DEFAULT && cf != CF_SLOT_META && cf != CF_TRANSACTIONS
                    && cf != CF_ADDRESS_SIGNATURES ==> #[trigger] raw(after, cf, k) == raw(
                    rows,
                    cf,
                    k,
                )
        }),
{
    if !has_block(rows, slot) {
        assert(removal_ops(rows, slot, txs, hashes) =~= Seq::<Op>::empty());
    } else {
        let ops = delete_ops(slot, txs, hashes);
        let rest = forget_ops(slot, txs, hashes);
        let after = apply(rows, ops);
        assert forall|i: int| 0 <= i < ops.len() implies !(#[trigger] ops[i] is Put) by {
            if i >= 3 {
                assert(ops[i] == rest[i - 3]);
                lemma_forget_ops(slot, txs, hashes, i - 3);
            }
        }
        assert(ops[0] == Op::Delete(CF_BLOCKS, slot_bytes(slot)));
        assert(ops[1] == Op::Delete(CF_DEFAULT, full_block_bytes(slot)));
        assert(ops[2] == Op::Delete(CF_SLOT_META, slot_bytes(slot)));
        lemma_deleted(rows, ops, CF_BLOCKS, slot_bytes(slot));
        lemma_deleted(rows, ops, CF_DEFAULT, full_block_bytes(slot));
        lemma_deleted(rows, ops, CF_SLOT_META, slot_bytes(slot));
        assert forall|i: int| 0 <= i < txs.len() implies raw(
            after,
            CF_TRANSACTIONS,
            (#[trigger] hashes[i])@,
        ) is None by {
            lemma_forget_has(slot, txs, hashes, i, 0);
            let at = rest.index_of(Op::Delete(CF_TRANSACTIONS, hashes[i]@));
            assert(ops[at + 3] == rest[at]);
            lemma_deleted(rows, ops, CF_TRANSACTIONS, hashes[i]@);
        }
        assert forall|i: int, j: int|
            0 <= i < txs.len() && 0 <= j < accounts_of(txs[i]).len() implies raw(
            after,
            CF_ADDRESS_SIGNATURES,
            #[trigger] address_sig_bytes(accounts_of(txs[i])[j], slot, i as u32),
        ) is None by {
            let key = address_sig_bytes(accounts_of(txs[i])[j], slot, i as u32);
            lemma_forget_has(slot, txs, hashes, i, j);
            let at = rest.index_of(Op::Delete(CF_ADDRESS_SIGNATURES, key));
            assert(ops[at + 3] == rest[at]);
            lemma_deleted(rows, ops, CF_ADDRESS_SIGNATURES, key);
        }
        assert forall|cf: Cf, k: Seq<u8>|
            cf != CF_BLOCKS && cf != CF_DEFAULT && cf != CF_SLOT_META && cf != CF_TRANSACTIONS && cf
                != CF_ADDRESS_SIGNATURES implies #[trigger] raw(after, cf, k) == raw(rows, cf, k) by {
            assert forall|i: int| 0 <= i < ops.len() implies !touches(#[trigger] ops[i], cf, k) by {
                if i >= 3 {
                    assert(ops[i] == rest[i - 3]);
                    lemma_forget_ops(slot, txs, hashes, i - 3);
                }
            }
            lemma_apply_untouched(rows, ops, cf, k);
        }
    }
}

/// What a list of headers says of the rows that it was read from.
proof fn lemma_headers_read(found: Seq<(Seq<u8>, Seq<u8>)>, end_slot: u64)
    ensures
        ({
            let (list, goes_on) = headers_in(found, end_slot);
            match list {
                Ok(list) => {
                    let n = list.len() as int;
                    &&& n <= found.len()
                    &&& goes_on ==> n == found.len()
                    &&& !goes_on ==> n < found.len() && found[n].0.len() == 8 && be_value(
                        found[n].0,
                    ) > end_slot
                    &&& forall|i: int|
                        0 <= i < n ==> (#[trigger] found[i]).0.len() == 8 && be_value(found[i].0)
                            <= end_slot && decoded_front::<BlockHeader>(found[i].1) == Ok::<
                            HeaderModel,
                            ErrorModel,
                        >(list[i])
                },
                Err(_) => exists|i: int|
                    0 <= i < found.len() && ((#[trigger] found[i]).0.len() != 8 || (be_value(
                        found[i].0,
                    ) <= end_slot && decoded_front::<BlockHeader>(found[i].1) is Err)),
            }
        }),
    decreases found.len(),
{
    if found.len() > 0 {
        let front = found.drop_last();
        lemma_headers_read(front, end_slot);
        let (before, on) = headers_in(front, end_slot);
        if before is Err {
            let i = choose|i: int|
                0 <= i < front.len() && ((#[trigger] front[i]).0.len() != 8 || (be_value(front[i].0)
                    <= end_slot && decoded_front::<BlockHeader>(front[i].1) is Err));
            assert(found[i] == front[i]);
        } else {
            assert forall|i: int| 0 <= i < before->Ok_0.len() implies #[trigger] found[i]
                == front[i] by {}
            if !on {
                assert(found[before->Ok_0.len() as int] == front[before->Ok_0.len() as int]);
            }
            assert(found[found.len() - 1] == found.last());
        }
    }
}

/// A key of eight bytes is that of a slot.
proof fn lemma_slot_of_key(key: Seq<u8>)
    requires
        key.len() == 8,
    ensures
        be_value(key) <= u64::MAX,
        slot_bytes(be_value(key) as u64) == key,
{
    lemma_be_bytes_of_value(key);
    lemma_byte_ranges();
}

/// `list` holds the headers of the slots `slots`: all slots from `start_slot` to `end_slot`, both
/// included, that have a row, each once, in ascending order.
pub open spec fn is_header_list(
    rows: Rows,
    start_slot: u64,
    end_slot: u64,
    slots: Seq<u64>,
    list: Seq<HeaderModel>,
) -> bool {
    &&& slots.len() == list.len()
    &&& forall|i: int, j: int|
        0 <= i < j < slots.len() ==> (#[trigger] slots[i]) < (#[trigger] slots[j])
    &&& forall|i: int|
        0 <= i < slots.len() ==> {
            let slot = #[trigger] slots[i];
            &&& start_slot <= slot <= end_slot
            &&& rows.contains_key((CF_BLOCKS, slot_bytes(slot)))
            &&& decoded_front::<BlockHeader>(rows[(CF_BLOCKS, slot_bytes(slot))]) == Ok::<
                HeaderModel,
                ErrorModel,
            >(list[i])
        }
    &&& forall|slot: u64|
        start_slot <= slot <= end_slot && #[trigger] rows.contains_key(
            (CF_BLOCKS, slot_bytes(slot)),
        ) ==> slots.contains(slot)
}

proof fn lemma_slots_spread(slots: Seq<u64>, start_slot: u64, n: int)
    requires
        0 <= n < slots.len(),
        forall|i: int, j: int|
            0 <= i < j < slots.len() ==> (#[trigger] slots[i]) < (#[trigger] slots[j]),
        slots[0] >= start_slot,
    ensures
        slots[n] >= start_slot + n,
    decreases n,
{
    if n > 0 {
        lemma_slots_spread(slots, start_slot, n - 1);
        assert(slots[n - 1] < slots[n]);
    }
}

/// The headers of a range are complete: every slot of the range that has a header is there with
/// it, in ascending order, and nothing else. The list comes whenever the keys are those of slots
/// and the headers of the range can be read; a range that ends before it starts is empty.
pub proof fn header_range_is_complete(rows: Rows, start_slot: u64, end_slot: u64)
    requires
        rows.dom().finite(),
        rows.dom().len() < usize::MAX,
    ensures
        ({
            let r = headers_range(rows, start_slot, end_slot);
            &&& r matches Ok(list) ==> exists|slots: Seq<u64>| #[trigger]
                is_header_list(rows, start_slot, end_slot, slots, list)
            &&& (forall|k: Seq<u8>| #[trigger]
                rows.contains_key((CF_BLOCKS, k)) ==> k.len() == 8) && (forall|slot: u64|
                start_slot <= slot <= end_slot && #[trigger] rows.contains_key(
                    (CF_BLOCKS, slot_bytes(slot)),
                ) ==> decoded_front::<BlockHeader>(rows[(CF_BLOCKS, slot_bytes(slot))]) is Ok)
                ==> r is Ok
        }),
{
    let w = header_walk(start_slot, end_slot);
    finite_rows_have_walks(rows, w);
    let found = walk(rows, w);
    walk_is_within_rows(rows, w, found);
    lemma_headers_read(found, end_slot);
    let r = headers_range(rows, start_slot, end_slot);
    assert forall|i: int| 0 <= i < found.len() && (#[trigger] found[i]).0.len() == 8 implies be_value(
        found[i].0,
    ) <= u64::MAX && slot_bytes(be_value(found[i].0) as u64) == found[i].0 && start_slot
        <= be_value(found[i].0) by {
        lemma_slot_of_key(found[i].0);
        assert(on_walk(w, found[i].0));
        slot_keys_are_ordered(be_value(found[i].0) as u64, start_slot);
    }
    if r is Ok {
        let list = r->Ok_0;
        let n = list.len() as int;
        let slots = Seq::new(list.len(), |i: int| be_value(found[i].0) as u64);
        assert forall|i: int, j: int| 0 <= i < j < slots.len() implies (#[trigger] slots[i])
            < (#[trigger] slots[j]) by {
            assert(comes_before(false, found[i].0, found[j].0));
            slot_keys_are_ordered(slots[i], slots[j]);
        }
        if n == found.len() && n > 0 {
            lemma_slots_spread(slots, start_slot, n - 1);
            assert(slots[n - 1] <= end_slot);
        }
        assert(n == found.len() ==> n < w.limit);
        assert forall|slot: u64|
            start_slot <= slot <= end_slot && #[trigger] rows.contains_key(
                (CF_BLOCKS, slot_bytes(slot)),
            ) implies slots.contains(slot) by {
            let k = slot_bytes(slot);
            slot_keys_are_ordered(slot, start_slot);
            assert(k.subrange(0, 0) =~= Seq::<u8>::empty());
            assert(on_walk(w, k));
            assert(reached(w, found, k));
            if n < found.len() {
                let past = be_value(found[n].0) as u64;
                slot_keys_are_ordered(past, slot);
                if exists|i: int| 0 <= i < found.len() && (#[trigger] found[i]).0 == k {
                    let i = choose|i: int| 0 <= i < found.len() && (#[trigger] found[i]).0 == k;
                    if i < n {
                        slot_keys_are_ordered(slot, slots[i]);
                        assert(slots[i] == slot);
                    } else if i > n {
                        assert(comes_before(false, found[n].0, found[i].0));
                    }
                } else if n < found.len() - 1 {
                    assert(comes_before(false, found[n].0, found[found.len() - 1].0));
                    lemma_lex_transitive(found[n].0, found.last().0, k);
                }
            } else {
                let i = choose|i: int| 0 <= i < found.len() && (#[trigger] found[i]).0 == k;
                slot_keys_are_ordered(slot, slots[i]);
                assert(slots[i] == slot);
            }
        }
        assert(is_header_list(rows, start_slot, end_slot, slots, list));
    } else {
        let i = choose|i: int|
            0 <= i < found.len() && ((#[trigger] found[i]).0.len() != 8 || (be_value(found[i].0)
                <= end_slot && decoded_front::<BlockHeader>(found[i].1) is Err));
        assert(rows.contains_key((CF_BLOCKS, found[i].0)));
        if found[i].0.len() == 8 {
            let slot = be_value(found[i].0) as u64;
            assert(rows.contains_key((CF_BLOCKS, slot_bytes(slot))));
        }
    }
}

/// The headers and blocks of all slots but one are the same in two stores.
pub open spec fn same_blocks_but_at(a: Rows, b: Rows, slot: u64) -> bool {
    forall|other: u64|
        other != slot ==> {
            &&& #[trigger] header_at(a, other) == header_at(b, other)
            &&& block_at(a, other) == block_at(b, other)
            &&& has_header(a, other) == has_header(b, other)
        }
}

/// A header that was stored is read at its slot, and is there. No block, and no header of another
/// slot, changes.
pub proof fn stored_header_reads_back(rows: Rows, slot: u64, header: HeaderModel)
    ensures
        ({
            let ops = header_ops(slot, header);
            let after = apply(rows, (ops->Ok_0).0);
            &&& ops is Ok
            &&& header_at(after, slot) == Ok::<Option<HeaderModel>, ErrorModel>(Some(header))
            &&& has_header(after, slot)
            &&& block_at(after, slot) == block_at(rows, slot)
            &&& same_blocks_but_at(after, rows, slot)
        }),
{
    assert(<BlockHeader as Codec>::fits(header));
    decoded_inverts_encoded::<BlockHeader>(header);
    reveal_with_fuel(apply, 2);
    assert forall|other: u64| other != slot implies slot_bytes(other) != slot_bytes(slot) by {
        slot_keys_are_ordered(other, slot);
    }
}

/// A block that is stored leaves the headers and blocks of all other slots, and everything but
/// headers and blocks.
pub proof fn stored_block_leaves_other_slots(
    rows: Rows,
    slot: u64,
    header: HeaderModel,
    block: BlockModel,
    cf: Cf,
    key: Seq<u8>,
)
    requires
        <Block as Codec>::fits(block),
    ensures
        ({
            let after = apply(rows, (block_ops(slot, header, block)->Ok_0).0);
            &&& has_header(after, slot)
            &&& same_blocks_but_at(after, rows, slot)
            &&& cf != CF_BLOCKS && cf != CF_DEFAULT ==> raw(after, cf, key) == raw(rows, cf, key)
        }),
{
    assert(<BlockHeader as Codec>::fits(header));
    let h = <BlockHeader as Codec>::layout(header);
    let b = <Block as Codec>::layout(block);
    let ops = (block_ops(slot, header, block)->Ok_0).0;
    let after = apply(rows, ops);
    reveal_with_fuel(apply, 3);
    assert(ops.drop_last() =~= seq![Op::Put(CF_BLOCKS, slot_bytes(slot), h)]);
    assert(after == rows.insert((CF_BLOCKS, slot_bytes(slot)), h).insert(
        (CF_DEFAULT, full_block_bytes(slot)),
        b,
    ));
    assert forall|other: u64| other != slot implies {
        &&& #[trigger] header_at(after, other) == header_at(rows, other)
        &&& block_at(after, other) == block_at(rows, other)
        &&& has_header(after, other) == has_header(rows, other)
    } by {
        slot_keys_are_ordered(other, slot);
        full_block_keys_are_ordered(other, slot);
    }
}

/// The latest slot has a header, and none above it has. There is none only if no slot has one.
pub proof fn latest_slot_is_highest(rows: Rows)
    requires
        rows.dom().finite(),
        forall|k: Seq<u8>| #[trigger] rows.contains_key((CF_BLOCKS, k)) ==> k.len() == 8,
    ensures
        latest_slot(rows) is None <==> forall|slot: u64| !#[trigger] has_header(rows, slot),
        (latest_slot(rows) matches Some(top) ==> {
            &&& has_header(rows, top)
            &&& forall|slot: u64| #[trigger] has_header(rows, slot) ==> slot <= top
        }),
{
    highest_slot_is_found(rows, CF_BLOCKS);
    assert forall|slot: u64| #[trigger] has_header(rows, slot) implies rows.contains_key(
        (CF_BLOCKS, slot_bytes(slot)),
    ) by {}
    if forall|slot: u64| !#[trigger] has_header(rows, slot) {
        assert forall|slot: u64| !rows.contains_key((CF_BLOCKS, #[trigger] slot_bytes(slot))) by {
            assert(!has_header(rows, slot));
        }
    }
}

/// Where the changes that remove the transactions of a block come from.
proof fn lemma_forget_from(slot: u64, txs: Seq<TransactionModel>, hashes: Seq<Digest>, i: int)
    requires
        0 <= i < forget_ops(slot, txs, hashes).len(),
        txs.len() <= hashes.len(),
    ensures
        ({
            let op = forget_ops(slot, txs, hashes)[i];
            ||| exists|n: int|
                0 <= n < txs.len() && op == Op::Delete(CF_TRANSACTIONS, (#[trigger] hashes[n])@)
            ||| exists|a: Digest, n: u32|
                op == Op::Delete(CF_ADDRESS_SIGNATURES, #[trigger] address_sig_bytes(a, slot, n))
        }),
    decreases txs.len(),
{
    if txs.len() > 0 {
        let front = forget_ops(slot, txs.drop_last(), hashes);
        let op = forget_ops(slot, txs, hashes)[i];
        let last = txs.len() - 1;
        if i < front.len() {
            lemma_forget_from(slot, txs.drop_last(), hashes, i);
            assert(op == front[i]);
        } else if i == front.len() {
            assert(op == Op::Delete(CF_TRANSACTIONS, hashes[last]@));
        } else {
            let a = accounts_of(txs[last])[i - front.len() - 1];
            assert(op == Op::Delete(
                CF_ADDRESS_SIGNATURES,
                address_sig_bytes(a, slot, last as u32),
            ));
        }
    }
}

/// Deleting a block leaves the headers and blocks of all other slots and what is known of them,
/// what became of the transactions of other blocks, and the places of other slots on the list of
/// any address.
pub proof fn deleted_block_leaves_other_slots(
    rows: Rows,
    slot: u64,
    txs: Seq<TransactionModel>,
    hashes: Seq<Digest>,
    other: u64,
    tx_hash: Digest,
    address: Digest,
    tx_index: u32,
)
    requires
        hashes.len() == txs.len(),
    ensures
        ({
            let after = apply(rows, removal_ops(rows, slot, txs, hashes));
            &&& other != slot ==> {
                &&& header_at(after, other) == header_at(rows, other)
                &&& block_at(after, other) == block_at(rows, other)
                &&& has_header(after, other) == has_header(rows, other)
                &&& raw(after, CF_SLOT_META, slot_bytes(other)) == raw(
                    rows,
                    CF_SLOT_META,
                    slot_bytes(other),
                )
                &&& raw(
                    after,
                    CF_ADDRESS_SIGNATURES,
                    address_sig_bytes(address, other, tx_index),
                ) == raw(rows, CF_ADDRESS_SIGNATURES, address_sig_bytes(address, other, tx_index))
            }
            &&& !hashes.contains(tx_hash) ==> raw(after, CF_TRANSACTIONS, tx_hash@) == raw(
                rows,
                CF_TRANSACTIONS,
                tx_hash@,
            )
        }),
{
    if !has_block(rows, slot) {
        assert(removal_ops(rows, slot, txs, hashes) =~= Seq::<Op>::empty());
    } else {
        let ops = delete_ops(slot, txs, hashes);
        if other != slot {
            slot_keys_are_ordered(other, slot);
            full_block_keys_are_ordered(other, slot);
            lemma_delete_elsewhere(rows, slot, txs, hashes, CF_BLOCKS, slot_bytes(other));
            lemma_delete_elsewhere(rows, slot, txs, hashes, CF_DEFAULT, full_block_bytes(other));
            lemma_delete_elsewhere(rows, slot, txs, hashes, CF_SLOT_META, slot_bytes(other));
            let key = address_sig_bytes(address, other, tx_index);
            assert forall|a: Digest, n: u32| key != #[trigger] address_sig_bytes(a, slot, n) by {
                address_sig_keys_are_distinct(address, other, tx_index, a, slot, n);
            }
            lemma_delete_elsewhere(rows, slot, txs, hashes, CF_ADDRESS_SIGNATURES, key);
        }
        if !hashes.contains(tx_hash) {
            assert forall|n: int| 0 <= n < txs.len() implies (#[trigger] hashes[n])@
                != tx_hash@ by {
                lemma_digest_of(hashes[n]);
                lemma_digest_of(tx_hash);
            }
            lemma_delete_elsewhere(rows, slot, txs, hashes, CF_TRANSACTIONS, tx_hash@);
        }
    }
}

proof fn lemma_delete_elsewhere(
    rows: Rows,
    slot: u64,
    txs: Seq<TransactionModel>,
    hashes: Seq<Digest>,
    cf: Cf,
    key: Seq<u8>,
)
    requires
        hashes.len() == txs.len(),
        cf == CF_BLOCKS || cf == CF_SLOT_META ==> key != slot_bytes(slot),
        cf == CF_DEFAULT ==> key != full_block_bytes(slot),
        cf == CF_TRANSACTIONS ==> forall|n: int|
            0 <= n < txs.len() ==> (#[trigger] hashes[n])@ != key,
        cf == CF_ADDRESS_SIGNATURES ==> forall|a: Digest, n: u32|
            key != #[trigger] address_sig_bytes(a, slot, n),
    ensures
        raw(apply(rows, delete_ops(slot, txs, hashes)), cf, key) == raw(rows, cf, key),
{
    let ops = delete_ops(slot, txs, hashes);
    let rest = forget_ops(slot, txs, hashes);
    assert forall|i: int| 0 <= i < ops.len() implies !touches(#[trigger] ops[i], cf, key) by {
        if i >= 3 {
            assert(ops[i] == rest[i - 3]);
            lemma_forget_from(slot, txs, hashes, i - 3);
        } else {
            assert(i == 0 || i == 1 || i == 2);
        }
    }
    lemma_apply_untouched(rows, ops, cf, key);
}

} // verus!
