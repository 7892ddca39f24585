//! Finalised slots: their roots, their bank hashes, and the hashes of their blocks.

use crate::bytes::{
    be_value, lemma_be_bytes_len, lemma_be_bytes_of_value, lemma_byte_ranges, u64_from_be,
};
use crate::codec::{models, Codec};
use crate::digest::{digest_of, lemma_digest_of, Digest};
use crate::ledger::{Block, BlockHeader};
use crate::storage::cf::{
    Cf, CF_BANK_HASHES, CF_BLOCKS, CF_DEFAULT, CF_ROOTS, CF_SLOT_HASHES, CF_SLOT_META,
};
use crate::storage::database::{
    comes_before, finite_rows_have_walks, lemma_walk, on_walk, reached, views, walk, walked,
    Database, Walk, WalkModel,
};
use crate::storage::error::StorageError;
use crate::storage::keys::{
    full_block_bytes, full_block_key, full_block_keys_are_ordered, slot_bytes, slot_key,
    slot_keys_are_ordered,
};
use crate::storage::slot_meta::SlotMeta;
use crate::storage::store::{
    agrees, changed, corruption, decoded_front, decoded_inverts_encoded, digest_row, encode_record,
    encoded, highest_slot_is_found, last_slot, outcome, raw, record, ErrorModel, Storage,
};
use crate::storage::write_batch::{
    apply, lemma_apply_put, lemma_apply_untouched, touches, Op, Rows, StorageWriteBatch,
};
use vstd::prelude::*;
use vstd::slice::slice_to_vec;

verus! {

/// The changes that finalise a slot, from the bytes that they write.
pub open spec fn six_puts(
    slot: u64,
    header: Seq<u8>,
    block: Seq<u8>,
    bank_hash: Seq<u8>,
    block_hash: Seq<u8>,
    meta: Seq<u8>,
) -> Seq<Op> {
    seq![
        Op::Put(CF_BLOCKS, slot_bytes(slot), header),
        Op::Put(CF_DEFAULT, full_block_bytes(slot), block),
        Op::Put(CF_BANK_HASHES, slot_bytes(slot), bank_hash),
        Op::Put(CF_SLOT_HASHES, slot_bytes(slot), block_hash),
        Op::Put(CF_SLOT_META, slot_bytes(slot), meta),
        Op::Put(CF_ROOTS, slot_bytes(slot), Seq::<u8>::empty()),
    ]
}

/// The changes that finalise a slot: its header, its block, its bank hash, the hash of its
/// block, what is known of it, and its root.
pub open spec fn finalize_ops(
    slot: u64,
    block_hash: Digest,
    header: <BlockHeader as Codec>::M,
    block: <Block as Codec>::M,
    bank_hash: Digest,
    meta: <SlotMeta as Codec>::M,
) -> Result<(Seq<Op>, ()), ErrorModel> {
    match (encoded::<BlockHeader>(header), encoded::<Block>(block), encoded::<SlotMeta>(meta)) {
        (Ok(header_bytes), Ok(block_bytes), Ok(meta_bytes)) => Ok(
            (
                six_puts(slot, header_bytes, block_bytes, bank_hash@, block_hash@, meta_bytes),
                (),
            ),
        ),
        (Err(e), _, _) => Err(e),
        (_, Err(e), _) => Err(e),
        (_, _, Err(e)) => Err(e),
    }
}

/// A slot is a root.
pub open spec fn is_root(rows: Rows, slot: u64) -> bool {
    rows.contains_key((CF_ROOTS, slot_bytes(slot)))
}

/// The highest root.
pub open spec fn latest_root(rows: Rows) -> Option<u64> {
    last_slot(rows, CF_ROOTS)
}

/// The change that makes a slot a root.
pub open spec fn root_ops(slot: u64) -> Result<(Seq<Op>, ()), ErrorModel> {
    Ok((seq![Op::Put(CF_ROOTS, slot_bytes(slot), Seq::<u8>::empty())], ()))
}

/// The change that stores the bank hash of a slot.
pub open spec fn bank_hash_ops(slot: u64, hash: Digest) -> Result<(Seq<Op>, ()), ErrorModel> {
    Ok((seq![Op::Put(CF_BANK_HASHES, slot_bytes(slot), hash@)], ()))
}

/// The bank hash of a slot.
pub open spec fn bank_hash_at(rows: Rows, slot: u64) -> Result<Option<Digest>, ErrorModel> {
    digest_row(rows, CF_BANK_HASHES, slot_bytes(slot), "invalid bank hash length"@)
}

/// The change that stores the hash of the block of a slot.
pub open spec fn slot_hash_ops(slot: u64, hash: Digest) -> Result<(Seq<Op>, ()), ErrorModel> {
    Ok((seq![Op::Put(CF_SLOT_HASHES, slot_bytes(slot), hash@)], ()))
}

/// The hash of the block of a slot.
pub open spec fn slot_hash_at(rows: Rows, slot: u64) -> Result<Option<Digest>, ErrorModel> {
    digest_row(rows, CF_SLOT_HASHES, slot_bytes(slot), "invalid slot hash length"@)
}

/// The hashes of blocks at or before a slot, from the newest on.
pub open spec fn slot_hash_walk(max_slot: u64, limit: nat) -> WalkModel {
    WalkModel {
        cf: CF_SLOT_HASHES,
        prefix: Seq::empty(),
        start: Some(slot_bytes(max_slot)),
        key_len: Some(8),
        reverse: true,
        limit,
    }
}

/// The hashes in some rows.
pub open spec fn slot_hashes_in(found: Seq<(Seq<u8>, Seq<u8>)>) -> Result<
    Seq<(u64, Digest)>,
    ErrorModel,
>
    decreases found.len(),
{
    if found.len() == 0 {
        Ok(Seq::empty())
    } else {
        let (key, value) = found.last();
        match slot_hashes_in(found.drop_last()) {
            Err(e) => Err(e),
            Ok(so_far) => if value.len() != 64 {
                Err(ErrorModel::Corruption("invalid slot hash length"@))
            } else {
                Ok(so_far.push((be_value(key) as u64, digest_of(value))))
            },
        }
    }
}

/// At most `limit` of the hashes of blocks at or before a slot, newest first.
pub open spec fn recent_slot_hashes(rows: Rows, max_slot: u64, limit: nat) -> Result<
    Seq<(u64, Digest)>,
    ErrorModel,
> {
    slot_hashes_in(walk(rows, slot_hash_walk(max_slot, limit)))
}

proof fn lemma_slot_hashes_stop(found: Seq<(Seq<u8>, Seq<u8>)>, n: int)
    requires
        0 <= n <= found.len(),
        slot_hashes_in(found.take(n)) is Err,
    ensures
        slot_hashes_in(found) == slot_hashes_in(found.take(n)),
    decreases found.len(),
{
    if n == found.len() {
        assert(found.take(n) =~= found);
    } else {
        assert(found.drop_last().take(n) =~= found.take(n));
        lemma_slot_hashes_stop(found.drop_last(), n);
    }
}

impl<D: Database> Storage<D> {
    /// Writes all that belongs to a finalised slot, at once.
    pub fn finalize_slot(&mut self, block: &Block, bank_hash: &Digest, slot_meta: &SlotMeta) -> (r:
        Result<(), StorageError>)
        ensures
            old(self).reliable() ==> final(self).reliable(),
            changed(
                old(self).reliable(),
                old(self).rows(),
                final(self).rows(),
                outcome(r),
                finalize_ops(
                    block.header.slot,
                    block.header.block_hash,
                    block.header.model(),
                    block.model(),
                    *bank_hash,
                    slot_meta.model(),
                ),
            ),
    {
        let slot: u64 = block.header.slot;
        let mut batch = StorageWriteBatch::new();
        let header_value = match encode_record(&block.header) {
            Ok(value) => value,
            Err(e) => return Err(e),
        };
        let block_value = match encode_record(block) {
            Ok(value) => value,
            Err(e) => return Err(e),
        };
        let meta_value = match encode_record(slot_meta) {
            Ok(value) => value,
            Err(e) => return Err(e),
        };
        let key = slot_key(slot);
        batch.put(CF_BLOCKS, slice_to_vec(key.as_slice()), header_value);
        batch.put(CF_DEFAULT, slice_to_vec(full_block_key(slot).as_slice()), block_value);
        batch.put(
            CF_BANK_HASHES,
            slice_to_vec(key.as_slice()),
            slice_to_vec(bank_hash.as_bytes().as_slice()),
        );
        batch.put(
            CF_SLOT_HASHES,
            slice_to_vec(key.as_slice()),
            slice_to_vec(block.header.block_hash.as_bytes().as_slice()),
        );
        batch.put(CF_SLOT_META, slice_to_vec(key.as_slice()), meta_value);
        batch.put(CF_ROOTS, slice_to_vec(key.as_slice()), Vec::new());
        proof {
            let ops = (finalize_ops(
                slot,
                block.header.block_hash,
                block.header.model(),
                block.model(),
                *bank_hash,
                slot_meta.model(),
            )->Ok_0).0;
            assert(batch@ =~= ops);
        }
        self.write(&batch)
    }

    /// Makes a slot a root.
    pub fn set_root(&mut self, slot: u64) -> (r: Result<(), StorageError>)
        ensures
            old(self).reliable() ==> final(self).reliable(),
            changed(
                old(self).reliable(),
                old(self).rows(),
                final(self).rows(),
                outcome(r),
                root_ops(slot),
            ),
    {
        let key = slot_key(slot);
        let none: Vec<u8> = Vec::new();
        assert(none@ =~= Seq::<u8>::empty());
        self.put_cf(CF_ROOTS, key.as_slice(), none.as_slice())
    }

    /// Whether a slot is a root.
    pub fn is_root(&self, slot: u64) -> (r: Result<bool, StorageError>)
        ensures
            agrees(self.reliable(), outcome(r), Ok(is_root(self.rows(), slot))),
    {
        let key = slot_key(slot);
        match self.get_cf(CF_ROOTS, key.as_slice()) {
            Ok(Some(_)) => Ok(true),
            Ok(None) => Ok(false),
            Err(e) => Err(e),
        }
    }

    /// The highest root.
    pub fn get_latest_root(&self) -> (r: Result<Option<u64>, StorageError>)
        ensures
            agrees(self.reliable(), outcome(r), Ok(latest_root(self.rows()))),
    {
        self.get_last_slot(CF_ROOTS)
    }

    /// Stores the bank hash of a slot.
    pub fn put_bank_hash(&mut self, slot: u64, hash: &Digest) -> (r: Result<(), StorageError>)
        ensures
            old(self).reliable() ==> final(self).reliable(),
            changed(
                old(self).reliable(),
                old(self).rows(),
                final(self).rows(),
                outcome(r),
                bank_hash_ops(slot, *hash),
            ),
    {
        let key = slot_key(slot);
        self.put_cf(CF_BANK_HASHES, key.as_slice(), hash.as_bytes().as_slice())
    }

    /// The bank hash of a slot.
    pub fn get_bank_hash(&self, slot: u64) -> (r: Result<Option<Digest>, StorageError>)
        ensures
            agrees(
                self.reliable(),
                outcome(r),
                bank_hash_at(self.rows(), slot),
            ),
    {
        let key = slot_key(slot);
        self.get_digest(CF_BANK_HASHES, key.as_slice(), "invalid bank hash length")
    }

    /// Stores the hash of the block of a slot.
    pub fn put_slot_hash(&mut self, slot: u64, hash: &Digest) -> (r: Result<(), StorageError>)
        ensures
            old(self).reliable() ==> final(self).reliable(),
            changed(
                old(self).reliable(),
                old(self).rows(),
                final(self).rows(),
                outcome(r),
                slot_hash_ops(slot, *hash),
            ),
    {
        let key = slot_key(slot);
        self.put_cf(CF_SLOT_HASHES, key.as_slice(), hash.as_bytes().as_slice())
    }

    /// The hash of the block of a slot.
    pub fn get_slot_hash(&self, slot: u64) -> (r: Result<Option<Digest>, StorageError>)
        ensures
            agrees(
                self.reliable(),
                outcome(r),
                slot_hash_at(self.rows(), slot),
            ),
    {
        let key = slot_key(slot);
        self.get_digest(CF_SLOT_HASHES, key.as_slice(), "invalid slot hash length")
    }

    /// The hashes of blocks at or before a slot, newest first.
    pub fn get_recent_slot_hashes_below(&self, max_slot: u64, limit: usize) -> (r: Result<
        Vec<(u64, Digest)>,
        StorageError,
    >)
        ensures
            agrees(
                self.reliable(),
                outcome(r),
                recent_slot_hashes(self.rows(), max_slot, limit as nat),
            ),
    {
        let w = Walk {
            cf: CF_SLOT_HASHES,
            prefix: Vec::new(),
            start: Some(slice_to_vec(slot_key(max_slot).as_slice())),
            key_len: Some(8),
            reverse: true,
            limit,
        };
        let rows = match self.db.scan(&w) {
            Ok(rows) => rows,
            Err(e) => return Err(e),
        };
        let ghost found = views(rows@);
        proof {
            assert(w.prefix@ =~= Seq::<u8>::empty());
            assert(w@ == slot_hash_walk(max_slot, limit as nat));
            lemma_walk(self.rows(), w@, found);
        }
        let n: usize = rows.len();
        let mut results: Vec<(u64, Digest)> = Vec::new();
        let mut i: usize = 0;
        assert(found.take(0) =~= Seq::<(Seq<u8>, Seq<u8>)>::empty());
        assert(models(results@) =~= Seq::<(u64, Digest)>::empty());
        while i < n
            invariant
                i <= n == rows@.len(),
                found == views(rows@),
                found == walk(self.rows(), slot_hash_walk(max_slot, limit as nat)),
                forall|j: int| 0 <= j < found.len() ==> (#[trigger] found[j]).0.len() == 8,
                slot_hashes_in(found.take(i as int)) == Ok::<Seq<(u64, Digest)>, ErrorModel>(
                    models(results@),
                ),
            decreases n - i,
        {
            proof {
                assert(found.take(i + 1).drop_last() =~= found.take(i as int));
                assert(found.take(i + 1).last() == rows@[i as int]@);
                assert(found[i as int] == rows@[i as int]@);
                assert(rows@[i as int].key@.subrange(0, 8) =~= rows@[i as int].key@);
            }
            let slot: u64 = u64_from_be(rows[i].key.as_slice(), 0);
            if rows[i].value.len() != 64 {
                proof {
                    lemma_slot_hashes_stop(found, i + 1);
                }
                return Err(corruption("invalid slot hash length"));
            }
            let hash = Digest::from_slice(rows[i].value.as_slice(), 0);
            proof {
                assert(rows@[i as int].value@.subrange(0, 64) =~= rows@[i as int].value@);
                lemma_digest_of(hash);
            }
            let ghost before = results@;
            results.push((slot, hash));
            assert(models(results@) =~= models(before).push((slot, hash)));
            i = i + 1;
        }
        assert(found.take(n as int) =~= found);
        Ok(results)
    }
}

/// A finalised slot reads back as a whole: its header, its block, its bank hash, the hash
/// of its block, what is known of it, and that it is a root.
pub proof fn finalized_slot_reads_back(
    rows: Rows,
    slot: u64,
    block_hash: Digest,
    header: <BlockHeader as Codec>::M,
    block: <Block as Codec>::M,
    bank_hash: Digest,
    meta: <SlotMeta as Codec>::M,
)
    requires
        <Block as Codec>::fits(block),
    ensures
        ({
            let ops = finalize_ops(slot, block_hash, header, block, bank_hash, meta);
            let after = apply(rows, (ops->Ok_0).0);
            &&& ops is Ok
            &&& raw(after, CF_BLOCKS, slot_bytes(slot)) is Some
            &&& decoded_front::<BlockHeader>(after[(CF_BLOCKS, slot_bytes(slot))]) == Ok::<
                <BlockHeader as Codec>::M,
                ErrorModel,
            >(header)
            &&& raw(after, CF_DEFAULT, full_block_bytes(slot)) is Some
            &&& decoded_front::<Block>(after[(CF_DEFAULT, full_block_bytes(slot))]) == Ok::<
                <Block as Codec>::M,
                ErrorModel,
            >(block)
            &&& digest_row(after, CF_BANK_HASHES, slot_bytes(slot), "invalid bank hash length"@)
                == Ok::<Option<Digest>, ErrorModel>(Some(bank_hash))
            &&& digest_row(after, CF_SLOT_HASHES, slot_bytes(slot), "invalid slot hash length"@)
                == Ok::<Option<Digest>, ErrorModel>(Some(block_hash))
            &&& record::<SlotMeta>(after, CF_SLOT_META, slot_bytes(slot)) == Ok::<
                Option<<SlotMeta as Codec>::M>,
                ErrorModel,
            >(Some(meta))
            &&& is_root(after, slot)
        }),
{
    assert(<BlockHeader as Codec>::fits(header));
    assert(<SlotMeta as Codec>::fits(meta));
    let h = <BlockHeader as Codec>::layout(header);
    let b = <Block as Codec>::layout(block);
    let m = <SlotMeta as Codec>::layout(meta);
    decoded_inverts_encoded::<BlockHeader>(header);
    decoded_inverts_encoded::<Block>(block);
    decoded_inverts_encoded::<SlotMeta>(meta);
    lemma_digest_of(bank_hash);
    lemma_digest_of(block_hash);
    lemma_six_puts(rows, slot, h, b, bank_hash@, block_hash@, m);
}

proof fn lemma_six_puts(
    rows: Rows,
    slot: u64,
    header: Seq<u8>,
    block: Seq<u8>,
    bank_hash: Seq<u8>,
    block_hash: Seq<u8>,
    meta: Seq<u8>,
)
    ensures
        ({
            let after = apply(rows, six_puts(slot, header, block, bank_hash, block_hash, meta));
            &&& raw(after, CF_BLOCKS, slot_bytes(slot)) == Some(header)
            &&& raw(after, CF_DEFAULT, full_block_bytes(slot)) == Some(block)
            &&& raw(after, CF_BANK_HASHES, slot_bytes(slot)) == Some(bank_hash)
            &&& raw(after, CF_SLOT_HASHES, slot_bytes(slot)) == Some(block_hash)
            &&& raw(after, CF_SLOT_META, slot_bytes(slot)) == Some(meta)
            &&& is_root(after, slot)
        }),
{
    let ops = six_puts(slot, header, block, bank_hash, block_hash, meta);
    lemma_apply_put(rows, ops, 0);
    lemma_apply_put(rows, ops, 1);
    lemma_apply_put(rows, ops, 2);
    lemma_apply_put(rows, ops, 3);
    lemma_apply_put(rows, ops, 4);
    lemma_apply_put(rows, ops, 5);
}

proof fn lemma_slot_hash(found: Seq<(Seq<u8>, Seq<u8>)>, i: int)
    requires
        slot_hashes_in(found) is Ok,
        0 <= i < found.len(),
    ensures
        slot_hashes_in(found)->Ok_0.len() == found.len(),
        slot_hashes_in(found)->Ok_0[i] == (be_value(found[i].0) as u64, digest_of(found[i].1)),
    decreases found.len(),
{
    let front = found.drop_last();
    if front.len() > 0 {
        lemma_slot_hash(front, 0);
    } else {
        assert(slot_hashes_in(front) == Ok::<Seq<(u64, Digest)>, ErrorModel>(Seq::empty()));
    }
    if i < front.len() {
        lemma_slot_hash(front, i);
        assert(front[i] == found[i]);
    }
}

/// Recent slot hashes are given by slot, descending, none above the highest asked for.
pub proof fn recent_hashes_are_newest_first(
    rows: Rows,
    max_slot: u64,
    limit: nat,
    found: Seq<(Seq<u8>, Seq<u8>)>,
    i: int,
    j: int,
)
    requires
        walked(rows, slot_hash_walk(max_slot, limit), found),
        slot_hashes_in(found) is Ok,
        0 <= i < j < slot_hashes_in(found)->Ok_0.len(),
    ensures
        slot_hashes_in(found)->Ok_0[i].0 > slot_hashes_in(found)->Ok_0[j].0,
        slot_hashes_in(found)->Ok_0[i].0 <= max_slot,
{
    if found.len() > 0 {
        lemma_slot_hash(found, 0);
    }
    lemma_slot_hash(found, i);
    lemma_slot_hash(found, j);
    let x = found[i].0;
    let y = found[j].0;
    assert(x.len() == 8 && y.len() == 8);
    lemma_be_bytes_of_value(x);
    lemma_be_bytes_of_value(y);
    lemma_byte_ranges();
    let a = be_value(x) as u64;
    let b = be_value(y) as u64;
    assert(slot_bytes(a) == x && slot_bytes(b) == y);
    assert(comes_before(true, x, y));
    slot_keys_are_ordered(b, a);
    slot_keys_are_ordered(max_slot, a);
}

/// The hashes and the roots of all slots but one are the same in two stores.
pub open spec fn same_but_at(a: Rows, b: Rows, slot: u64) -> bool {
    forall|other: u64|
        other != slot ==> {
            &&& #[trigger] bank_hash_at(a, other) == bank_hash_at(b, other)
            &&& slot_hash_at(a, other) == slot_hash_at(b, other)
            &&& is_root(a, other) == is_root(b, other)
        }
}

/// A bank hash that was stored is read at its slot, and nothing else of any slot changes.
pub proof fn stored_bank_hash_reads_back(rows: Rows, slot: u64, hash: Digest)
    ensures
        ({
            let ops = bank_hash_ops(slot, hash);
            let after = apply(rows, (ops->Ok_0).0);
            &&& ops is Ok
            &&& bank_hash_at(after, slot) == Ok::<Option<Digest>, ErrorModel>(Some(hash))
            &&& slot_hash_at(after, slot) == slot_hash_at(rows, slot)
            &&& is_root(after, slot) == is_root(rows, slot)
            &&& same_but_at(after, rows, slot)
        }),
{
    lemma_digest_of(hash);
    reveal_with_fuel(apply, 2);
    assert forall|other: u64| other != slot implies slot_bytes(other) != slot_bytes(slot) by {
        slot_keys_are_ordered(other, slot);
    }
}

/// The hash of a block that was stored is read at its slot, and nothing else of any slot
/// changes.
pub proof fn stored_slot_hash_reads_back(rows: Rows, slot: u64, hash: Digest)
    ensures
        ({
            let ops = slot_hash_ops(slot, hash);
            let after = apply(rows, (ops->Ok_0).0);
            &&& ops is Ok
            &&& slot_hash_at(after, slot) == Ok::<Option<Digest>, ErrorModel>(Some(hash))
            &&& bank_hash_at(after, slot) == bank_hash_at(rows, slot)
            &&& is_root(after, slot) == is_root(rows, slot)
            &&& same_but_at(after, rows, slot)
        }),
{
    lemma_digest_of(hash);
    reveal_with_fuel(apply, 2);
    assert forall|other: u64| other != slot implies slot_bytes(other) != slot_bytes(slot) by {
        slot_keys_are_ordered(other, slot);
    }
}

/// A slot that was made a root is one; all that was a root stays one, and nothing else becomes
/// one. No hash changes.
pub proof fn set_root_is_kept(rows: Rows, slot: u64)
    ensures
        ({
            let ops = root_ops(slot);
            let after = apply(rows, (ops->Ok_0).0);
            &&& ops is Ok
            &&& is_root(after, slot)
            &&& bank_hash_at(after, slot) == bank_hash_at(rows, slot)
            &&& slot_hash_at(after, slot) == slot_hash_at(rows, slot)
            &&& same_but_at(after, rows, slot)
        }),
{
    reveal_with_fuel(apply, 2);
    assert forall|other: u64| other != slot implies slot_bytes(other) != slot_bytes(slot) by {
        slot_keys_are_ordered(other, slot);
    }
}

/// The latest root is a root, and there is none above it. There is none only if no slot is a
/// root.
pub proof fn latest_root_is_highest(rows: Rows)
    requires
        rows.dom().finite(),
        forall|k: Seq<u8>| #[trigger] rows.contains_key((CF_ROOTS, k)) ==> k.len() == 8,
    ensures
        latest_root(rows) is None <==> forall|slot: u64| !#[trigger] is_root(rows, slot),
        (latest_root(rows) matches Some(top) ==> {
            &&& is_root(rows, top)
            &&& forall|slot: u64| #[trigger] is_root(rows, slot) ==> slot <= top
        }),
{
    highest_slot_is_found(rows, CF_ROOTS);
    assert forall|slot: u64| #[trigger] is_root(rows, slot) implies rows.contains_key(
        (CF_ROOTS, slot_bytes(slot)),
    ) by {}
    if forall|slot: u64| !#[trigger] is_root(rows, slot) {
        assert forall|slot: u64| !rows.contains_key((CF_ROOTS, #[trigger] slot_bytes(slot))) by {
            assert(!is_root(rows, slot));
        }
    }
}

/// Finalising a slot leaves all other slots as they were, and touches nothing but blocks, bank
/// hashes, block hashes, slots and roots.
pub proof fn finalizing_leaves_other_slots(
    rows: Rows,
    slot: u64,
    block_hash: Digest,
    header: <BlockHeader as Codec>::M,
    block: <Block as Codec>::M,
    bank_hash: Digest,
    meta: <SlotMeta as Codec>::M,
    other: u64,
    cf: Cf,
    key: Seq<u8>,
)
    requires
        <Block as Codec>::fits(block),
    ensures
        ({
            let after = apply(
                rows,
                (finalize_ops(slot, block_hash, header, block, bank_hash, meta)->Ok_0).0,
            );
            &&& other != slot ==> {
                &&& raw(after, CF_BLOCKS, slot_bytes(other)) == raw(
                    rows,
                    CF_BLOCKS,
                    slot_bytes(other),
                )
                &&& raw(after, CF_DEFAULT, full_block_bytes(other)) == raw(
                    rows,
                    CF_DEFAULT,
                    full_block_bytes(other),
                )
                &&& raw(after, CF_SLOT_META, slot_bytes(other)) == raw(
                    rows,
                    CF_SLOT_META,
                    slot_bytes(other),
                )
            }
            &&& same_but_at(after, rows, slot)
            &&& bank_hash_at(after, slot) == Ok::<Option<Digest>, ErrorModel>(Some(bank_hash))
            &&& slot_hash_at(after, slot) == Ok::<Option<Digest>, ErrorModel>(Some(block_hash))
            &&& cf != CF_BLOCKS && cf != CF_DEFAULT && cf != CF_BANK_HASHES && cf
                != CF_SLOT_HASHES && cf != CF_SLOT_META && cf != CF_ROOTS ==> raw(after, cf, key)
                == raw(rows, cf, key)
        }),
{
    finalized_slot_reads_back(rows, slot, block_hash, header, block, bank_hash, meta);
    let after = apply(
        rows,
        (finalize_ops(slot, block_hash, header, block, bank_hash, meta)->Ok_0).0,
    );
    let h = <BlockHeader as Codec>::layout(header);
    let b = <Block as Codec>::layout(block);
    let m = <SlotMeta as Codec>::layout(meta);
    assert(after == apply(rows, six_puts(slot, h, b, bank_hash@, block_hash@, m)));
    if cf != CF_BLOCKS && cf != CF_DEFAULT && cf != CF_BANK_HASHES && cf != CF_SLOT_HASHES && cf
        != CF_SLOT_META && cf != CF_ROOTS {
        lemma_six_puts_elsewhere(rows, slot, h, b, bank_hash@, block_hash@, m, cf, key);
    }
    assert forall|at: u64| at != slot implies {
        &&& #[trigger] bank_hash_at(after, at) == bank_hash_at(rows, at)
        &&& slot_hash_at(after, at) == slot_hash_at(rows, at)
        &&& is_root(after, at) == is_root(rows, at)
    } by {
        let k = slot_bytes(at);
        slot_keys_are_ordered(at, slot);
        lemma_six_puts_elsewhere(rows, slot, h, b, bank_hash@, block_hash@, m, CF_BANK_HASHES, k);
        lemma_six_puts_elsewhere(rows, slot, h, b, bank_hash@, block_hash@, m, CF_SLOT_HASHES, k);
        lemma_six_puts_elsewhere(rows, slot, h, b, bank_hash@, block_hash@, m, CF_ROOTS, k);
    }
    if other != slot {
        let k = slot_bytes(other);
        let f = full_block_bytes(other);
        slot_keys_are_ordered(other, slot);
        full_block_keys_are_ordered(other, slot);
        lemma_six_puts_elsewhere(rows, slot, h, b, bank_hash@, block_hash@, m, CF_BLOCKS, k);
        lemma_six_puts_elsewhere(rows, slot, h, b, bank_hash@, block_hash@, m, CF_DEFAULT, f);
        lemma_six_puts_elsewhere(rows, slot, h, b, bank_hash@, block_hash@, m, CF_SLOT_META, k);
    }
}

proof fn lemma_six_puts_elsewhere(
    rows: Rows,
    slot: u64,
    header: Seq<u8>,
    block: Seq<u8>,
    bank_hash: Seq<u8>,
    block_hash: Seq<u8>,
    meta: Seq<u8>,
    cf: Cf,
    key: Seq<u8>,
)
    requires
        cf == CF_DEFAULT ==> key != full_block_bytes(slot),
        cf == CF_BLOCKS || cf == CF_BANK_HASHES || cf == CF_SLOT_HASHES || cf == CF_SLOT_META || cf
            == CF_ROOTS ==> key != slot_bytes(slot),
    ensures
        raw(
            apply(rows, six_puts(slot, header, block, bank_hash, block_hash, meta)),
            cf,
            key,
        ) == raw(rows, cf, key),
{
    let ops = six_puts(slot, header, block, bank_hash, block_hash, meta);
    assert forall|i: int| 0 <= i < ops.len() implies !touches(#[trigger] ops[i], cf, key) by {
        if i < 3 {
            assert(i == 0 || i == 1 || i == 2);
        } else {
            assert(i == 3 || i == 4 || i == 5);
        }
    }
    lemma_apply_untouched(rows, ops, cf, key);
}

/// `list` gives the newest slots up to a highest one, with the hashes of their blocks: at most
/// `limit`, descending, and no slot is passed over for an older one.
pub open spec fn is_recent_list(
    rows: Rows,
    max_slot: u64,
    limit: nat,
    list: Seq<(u64, Digest)>,
) -> bool {
    &&& list.len() <= limit
    &&& forall|i: int, j: int|
        0 <= i < j < list.len() ==> (#[trigger] list[i]).0 > (#[trigger] list[j]).0
    &&& forall|i: int|
        0 <= i < list.len() ==> {
            let (slot, hash) = #[trigger] list[i];
            slot <= max_slot && slot_hash_at(rows, slot) == Ok::<Option<Digest>, ErrorModel>(
                Some(hash),
            )
        }
    &&& forall|slot: u64|
        slot <= max_slot && rows.contains_key((CF_SLOT_HASHES, #[trigger] slot_bytes(slot))) ==> {
            ||| exists|i: int| 0 <= i < list.len() && (#[trigger] list[i]).0 == slot
            ||| list.len() == limit && forall|i: int|
                0 <= i < list.len() ==> (#[trigger] list[i]).0 > slot
        }
}

/// Recent slot hashes are complete: every slot up to the highest asked for that has a hash is
/// listed, newest first, until the limit is reached. The list comes whenever these hashes are
/// whole.
pub proof fn recent_hashes_are_complete(rows: Rows, max_slot: u64, limit: nat)
    requires
        rows.dom().finite(),
    ensures
        recent_slot_hashes(rows, max_slot, limit) matches Ok(list) ==> is_recent_list(
            rows,
            max_slot,
            limit,
            list,
        ),
        (forall|slot: u64|
            slot <= max_slot && rows.contains_key((CF_SLOT_HASHES, #[trigger] slot_bytes(slot)))
                ==> rows[(CF_SLOT_HASHES, slot_bytes(slot))].len() == 64)
            ==> recent_slot_hashes(rows, max_slot, limit) is Ok,
{
    let w = slot_hash_walk(max_slot, limit);
    finite_rows_have_walks(rows, w);
    let found = walk(rows, w);
    lemma_slot_hashes_whole(found);
    assert forall|i: int| 0 <= i < found.len() implies {
        let slot = be_value((#[trigger] found[i]).0) as u64;
        &&& slot_bytes(slot) == found[i].0
        &&& slot <= max_slot
        &&& rows.contains_key((CF_SLOT_HASHES, slot_bytes(slot)))
        &&& rows[(CF_SLOT_HASHES, slot_bytes(slot))] == found[i].1
    } by {
        assert(on_walk(w, found[i].0));
        lemma_be_bytes_of_value(found[i].0);
        lemma_byte_ranges();
        slot_keys_are_ordered(max_slot, be_value(found[i].0) as u64);
    }
    if recent_slot_hashes(rows, max_slot, limit) is Ok {
        let list = recent_slot_hashes(rows, max_slot, limit)->Ok_0;
        assert forall|i: int| 0 <= i < list.len() implies #[trigger] list[i] == (
            be_value(found[i].0) as u64,
            digest_of(found[i].1),
        ) by {
            lemma_slot_hash(found, i);
        }
        assert forall|i: int, j: int| 0 <= i < j < list.len() implies (#[trigger] list[i]).0
            > (#[trigger] list[j]).0 by {
            recent_hashes_are_newest_first(rows, max_slot, limit, found, i, j);
        }
        assert forall|slot: u64|
            slot <= max_slot && rows.contains_key(
                (CF_SLOT_HASHES, #[trigger] slot_bytes(slot)),
            ) implies {
            ||| exists|i: int| 0 <= i < list.len() && (#[trigger] list[i]).0 == slot
            ||| list.len() == limit && forall|i: int|
                0 <= i < list.len() ==> (#[trigger] list[i]).0 > slot
        } by {
            let k = slot_bytes(slot);
            slot_keys_are_ordered(max_slot, slot);
            lemma_be_bytes_len(slot as nat, 8);
            assert(k.subrange(0, 0) =~= Seq::<u8>::empty());
            assert(on_walk(w, k));
            assert(reached(w, found, k));
            if exists|i: int| 0 <= i < found.len() && (#[trigger] found[i]).0 == k {
                let i = choose|i: int| 0 <= i < found.len() && (#[trigger] found[i]).0 == k;
                slot_keys_are_ordered(slot, list[i].0);
                assert(list[i].0 == slot);
            } else {
                assert forall|i: int| 0 <= i < list.len() implies (#[trigger] list[i]).0
                    > slot by {
                    let last = list.len() - 1;
                    if i < last {
                        assert(list[i].0 > list[last].0);
                    }
                    slot_keys_are_ordered(slot, list[last].0);
                    assert(slot_bytes(list[last].0) == found[last].0);
                }
            }
        }
    } else {
        let i = choose|i: int| 0 <= i < found.len() && (#[trigger] found[i]).1.len() != 64;
        let slot = be_value(found[i].0) as u64;
        assert(rows.contains_key((CF_SLOT_HASHES, slot_bytes(slot))));
    }
}

proof fn lemma_slot_hashes_whole(found: Seq<(Seq<u8>, Seq<u8>)>)
    ensures
        slot_hashes_in(found) is Err ==> exists|i: int|
            0 <= i < found.len() && (#[trigger] found[i]).1.len() != 64,
        slot_hashes_in(found) is Ok ==> slot_hashes_in(found)->Ok_0.len() == found.len() && forall|
            i: int,
        |
            0 <= i < found.len() ==> (#[trigger] found[i]).1.len() == 64,
    decreases found.len(),
{
    if found.len() > 0 {
        let front = found.drop_last();
        lemma_slot_hashes_whole(front);
        if slot_hashes_in(front) is Err {
            let i = choose|i: int| 0 <= i < front.len() && (#[trigger] front[i]).1.len() != 64;
            assert(found[i] == front[i]);
        } else if slot_hashes_in(found) is Err {
            assert(found[found.len() - 1].1.len() != 64);
        } else {
            assert forall|i: int| 0 <= i < found.len() implies (#[trigger] found[i]).1.len()
                == 64 by {
                if i < front.len() {
                    assert(front[i] == found[i]);
                }
            }
        }
    }
}

} // verus!
