//! Removing what is no longer needed.

use crate::bytes::{
    be_value, lemma_be_value_of_bytes, lemma_byte_ranges, lemma_lex_irreflexive, u64_from_be,
};
use crate::codec::Codec;
use crate::digest::Digest;
use crate::storage::cf::{
    Cf, CF_ADDRESS_SIGNATURES, CF_BLOCKS, CF_CODE_SHREDS, CF_DATA_SHREDS, CF_DEFAULT, CF_SLOT_META,
    CF_TRANSACTIONS,
};
use crate::storage::database::{
    comes_before, finite_rows_have_walks, has_prefix, lemma_walk, on_walk, reached, views, walk,
    walk_is_within_rows, walked, Database, Row, Walk,
};
use crate::storage::error::StorageError;
use crate::storage::keys::{
    address_sig_bytes, full_block_bytes, full_block_key, full_block_keys_are_ordered,
    full_block_prefix, key_lengths, shred_bytes, shred_key, shred_keys_are_ordered, slot_bytes,
    slot_key, slot_keys_are_ordered,
};
use crate::storage::store::{
    agrees, changed, corruption, decode, decoded_front, error_model, outcome, prefix_walk, raw,
    ErrorModel, Storage,
};
use crate::storage::transaction::TransactionStatusMeta;
use crate::storage::write_batch::{
    apply, in_range, lemma_apply_concat, lemma_apply_delete, lemma_apply_untouched, touches, Op,
    Rows, StorageWriteBatch,
};
use vstd::prelude::*;
use vstd::slice::slice_to_vec;

verus! {

/// The changes that remove what the ledger holds of the slots before `min_slot`: headers,
/// what is known of slots, shreds, and blocks.
pub open spec fn slot_purge_ops(min_slot: u64) -> Seq<Op> {
    if min_slot == 0 {
        Seq::empty()
    } else {
        seq![
            Op::DeleteRange(CF_BLOCKS, slot_bytes(0), slot_bytes(min_slot)),
            Op::DeleteRange(CF_SLOT_META, slot_bytes(0), slot_bytes(min_slot)),
            Op::DeleteRange(CF_DATA_SHREDS, shred_bytes(0, 0), shred_bytes(min_slot, 0)),
            Op::DeleteRange(CF_CODE_SHREDS, shred_bytes(0, 0), shred_bytes(min_slot, 0)),
            Op::DeleteRange(CF_DEFAULT, full_block_bytes(0), full_block_bytes(min_slot)),
        ]
    }
}

/// The changes that remove what became of transactions before `min_slot`, among some rows.
pub open spec fn status_purge_ops(found: Seq<(Seq<u8>, Seq<u8>)>, min_slot: u64) -> Result<
    Seq<Op>,
    ErrorModel,
>
    decreases found.len(),
{
    if found.len() == 0 {
        Ok(Seq::empty())
    } else {
        let (key, value) = found.last();
        match status_purge_ops(found.drop_last(), min_slot) {
            Err(e) => Err(e),
            Ok(ops) => match decoded_front::<TransactionStatusMeta>(value) {
                Err(e) => Err(e),
                Ok(meta) => if meta.0 < min_slot {
                    Ok(ops.push(Op::Delete(CF_TRANSACTIONS, key)))
                } else {
                    Ok(ops)
                },
            },
        }
    }
}

/// The changes that remove places before `min_slot` on the lists of addresses, among some
/// rows.
pub open spec fn list_purge_ops(found: Seq<(Seq<u8>, Seq<u8>)>, min_slot: u64) -> Result<
    Seq<Op>,
    ErrorModel,
>
    decreases found.len(),
{
    if found.len() == 0 {
        Ok(Seq::empty())
    } else {
        let key = found.last().0;
        match list_purge_ops(found.drop_last(), min_slot) {
            Err(e) => Err(e),
            Ok(ops) => if key.len() != 76 {
                Err(ErrorModel::Corruption("address_signatures key has unexpected length"@))
            } else if be_value(key.subrange(64, 72)) < min_slot {
                Ok(ops.push(Op::Delete(CF_ADDRESS_SIGNATURES, key)))
            } else {
                Ok(ops)
            },
        }
    }
}

/// The changes that remove what is held of transactions before `min_slot`. Nothing is
/// removed where a row cannot be read.
pub open spec fn transaction_purge_ops(rows: Rows, min_slot: u64) -> Result<Seq<Op>, ErrorModel> {
    if min_slot == 0 {
        Ok(Seq::empty())
    } else {
        match (
            status_purge_ops(walk(rows, prefix_walk(CF_TRANSACTIONS, Seq::empty())), min_slot),
            list_purge_ops(walk(rows, prefix_walk(CF_ADDRESS_SIGNATURES, Seq::empty())), min_slot),
        ) {
            (Ok(statuses), Ok(lists)) => Ok(statuses + lists),
            (Err(e), _) => Err(e),
            (_, Err(e)) => Err(e),
        }
    }
}

/// The purge of transactions, with the number of rows that it removes.
pub open spec fn transaction_purge(rows: Rows, min_slot: u64) -> Result<
    (Seq<Op>, u64),
    ErrorModel,
> {
    match transaction_purge_ops(rows, min_slot) {
        Ok(ops) => Ok((ops, ops.len() as u64)),
        Err(e) => Err(e),
    }
}

/// The purge of everything before `min_slot`, with the sum of what its two parts say.
pub open spec fn purge(rows: Rows, min_slot: u64) -> Result<(Seq<Op>, u64), ErrorModel> {
    match transaction_purge_ops(rows, min_slot) {
        Ok(ops) => Ok(
            (
                slot_purge_ops(min_slot) + ops,
                if min_slot + ops.len() > u64::MAX {
                    u64::MAX
                } else {
                    (min_slot + ops.len()) as u64
                },
            ),
        ),
        Err(e) => Err(e),
    }
}

proof fn lemma_status_stop(found: Seq<(Seq<u8>, Seq<u8>)>, min_slot: u64, n: int)
    requires
        0 <= n <= found.len(),
        status_purge_ops(found.take(n), min_slot) is Err,
    ensures
        status_purge_ops(found, min_slot) == status_purge_ops(found.take(n), min_slot),
    decreases found.len(),
{
    if n == found.len() {
        assert(found.take(n) =~= found);
    } else {
        assert(found.drop_last().take(n) =~= found.take(n));
        lemma_status_stop(found.drop_last(), min_slot, n);
    }
}

proof fn lemma_list_stop(found: Seq<(Seq<u8>, Seq<u8>)>, min_slot: u64, n: int)
    requires
        0 <= n <= found.len(),
        list_purge_ops(found.take(n), min_slot) is Err,
    ensures
        list_purge_ops(found, min_slot) == list_purge_ops(found.take(n), min_slot),
    decreases found.len(),
{
    if n == found.len() {
        assert(found.take(n) =~= found);
    } else {
        assert(found.drop_last().take(n) =~= found.take(n));
        lemma_list_stop(found.drop_last(), min_slot, n);
    }
}

impl<D: Database> Storage<D> {
    /// Adds the changes that remove what the ledger holds of the slots before `min_slot`.
    fn stage_slot_purge(batch: &mut StorageWriteBatch, min_slot: u64)
        ensures
            final(batch)@ == old(batch)@ + slot_purge_ops(min_slot),
    {
        let ghost before = batch@;
        if min_slot == 0 {
            assert(batch@ =~= before + Seq::<Op>::empty());
            return ;
        }
        let start = slot_key(0);
        let end = slot_key(min_slot);
        batch.delete_range(
            CF_BLOCKS,
            slice_to_vec(start.as_slice()),
            slice_to_vec(end.as_slice()),
        );
        batch.delete_range(
            CF_SLOT_META,
            slice_to_vec(start.as_slice()),
            slice_to_vec(end.as_slice()),
        );
        let shred_start = shred_key(0, 0);
        let shred_end = shred_key(min_slot, 0);
        batch.delete_range(
            CF_DATA_SHREDS,
            slice_to_vec(shred_start.as_slice()),
            slice_to_vec(shred_end.as_slice()),
        );
        batch.delete_range(
            CF_CODE_SHREDS,
            slice_to_vec(shred_start.as_slice()),
            slice_to_vec(shred_end.as_slice()),
        );
        batch.delete_range(
            CF_DEFAULT,
            slice_to_vec(full_block_key(0).as_slice()),
            slice_to_vec(full_block_key(min_slot).as_slice()),
        );
        assert(batch@ =~= before + slot_purge_ops(min_slot));
    }

    /// Removes what the ledger holds of the slots before `min_slot`, at once. Accounts and
    /// what consensus has settled stay.
    pub fn purge_slots_below(&mut self, min_slot: u64) -> (r: Result<u64, StorageError>)
        ensures
            old(self).reliable() ==> final(self).reliable(),
            changed(
                old(self).reliable(),
                old(self).rows(),
                final(self).rows(),
                outcome(r),
                Ok((slot_purge_ops(min_slot), min_slot)),
            ),
            r is Ok ==> ledger_gone_below(old(self).rows(), final(self).rows(), min_slot),
    {
        proof {
            lemma_ledger_gone(self.rows(), slot_purge_ops(min_slot), Seq::empty(), min_slot);
            assert(slot_purge_ops(min_slot) + Seq::<Op>::empty() =~= slot_purge_ops(min_slot));
        }
        if min_slot == 0 {
            return Ok(0);
        }
        let mut batch = StorageWriteBatch::new();
        Self::stage_slot_purge(&mut batch, min_slot);
        assert(batch@ =~= slot_purge_ops(min_slot));
        match self.write(&batch) {
            Ok(()) => Ok(min_slot),
            Err(e) => Err(e),
        }
    }

    fn all_rows(&self, cf: Cf) -> (r: Result<Vec<Row>, StorageError>)
        ensures
            match r {
                Ok(rows) => views(rows@) == walk(self.rows(), prefix_walk(cf, Seq::empty())),
                Err(e) => !self.reliable() && error_model(e) == ErrorModel::Database,
            },
    {
        let w = Walk {
            cf,
            prefix: Vec::new(),
            start: None,
            key_len: None,
            reverse: false,
            limit: usize::MAX,
        };
        match self.db.scan(&w) {
            Ok(rows) => {
                proof {
                    assert(w.prefix@ =~= Seq::<u8>::empty());
                    assert(w@ == prefix_walk(cf, Seq::empty()));
                    lemma_walk(self.rows(), w@, views(rows@));
                }
                Ok(rows)
            },
            Err(e) => Err(e),
        }
    }

    /// Adds the changes that remove what is held of transactions before `min_slot`.
    fn stage_transaction_purge(&self, batch: &mut StorageWriteBatch, min_slot: u64) -> (r: Result<
        (),
        StorageError,
    >)
        ensures
            match r {
                Ok(()) => {
                    let ops = transaction_purge_ops(self.rows(), min_slot);
                    ops is Ok && final(batch)@ == old(batch)@ + ops->Ok_0
                },
                Err(e) => agrees(
                    self.reliable(),
                    Err(error_model(e)),
                    transaction_purge_ops(self.rows(), min_slot),
                ),
            },
    {
        let ghost before = batch@;
        if min_slot == 0 {
            assert(batch@ =~= before + Seq::<Op>::empty());
            return Ok(());
        }
        let rows = match self.all_rows(CF_TRANSACTIONS) {
            Ok(rows) => rows,
            Err(e) => return Err(e),
        };
        let ghost found = views(rows@);
        let n: usize = rows.len();
        let mut i: usize = 0;
        assert(found.take(0) =~= Seq::<(Seq<u8>, Seq<u8>)>::empty());
        assert(batch@ =~= before + Seq::<Op>::empty());
        while i < n
            invariant
                i <= n == rows@.len(),
                min_slot > 0,
                found == views(rows@),
                found == walk(self.rows(), prefix_walk(CF_TRANSACTIONS, Seq::empty())),
                status_purge_ops(found.take(i as int), min_slot) is Ok,
                batch@ == before + status_purge_ops(found.take(i as int), min_slot)->Ok_0,
            decreases n - i,
        {
            proof {
                assert(found.take(i + 1).drop_last() =~= found.take(i as int));
                assert(found.take(i + 1).last() == rows@[i as int]@);
            }
            let ghost ops = status_purge_ops(found.take(i as int), min_slot)->Ok_0;
            match decode::<TransactionStatusMeta>(rows[i].value.as_slice()) {
                Ok(meta) => {
                    if meta.slot < min_slot {
                        batch.delete(CF_TRANSACTIONS, slice_to_vec(rows[i].key.as_slice()));
                        assert(batch@ =~= before + ops.push(
                            Op::Delete(CF_TRANSACTIONS, rows@[i as int].key@),
                        ));
                    }
                },
                Err(e) => {
                    proof {
                        lemma_status_stop(found, min_slot, i + 1);
                    }
                    return Err(e);
                },
            }
            i = i + 1;
        }
        assert(found.take(n as int) =~= found);
        let ghost statuses = status_purge_ops(found, min_slot)->Ok_0;
        let rows = match self.all_rows(CF_ADDRESS_SIGNATURES) {
            Ok(rows) => rows,
            Err(e) => return Err(e),
        };
        let ghost listed = views(rows@);
        let n: usize = rows.len();
        let mut i: usize = 0;
        assert(listed.take(0) =~= Seq::<(Seq<u8>, Seq<u8>)>::empty());
        assert(batch@ =~= before + (statuses + Seq::<Op>::empty()));
        while i < n
            invariant
                i <= n == rows@.len(),
                min_slot > 0,
                found == walk(self.rows(), prefix_walk(CF_TRANSACTIONS, Seq::empty())),
                status_purge_ops(found, min_slot) == Ok::<Seq<Op>, ErrorModel>(statuses),
                listed == views(rows@),
                listed == walk(self.rows(), prefix_walk(CF_ADDRESS_SIGNATURES, Seq::empty())),
                list_purge_ops(listed.take(i as int), min_slot) is Ok,
                batch@ == before + (statuses + list_purge_ops(
                    listed.take(i as int),
                    min_slot,
                )->Ok_0),
            decreases n - i,
        {
            proof {
                assert(listed.take(i + 1).drop_last() =~= listed.take(i as int));
                assert(listed.take(i + 1).last() == rows@[i as int]@);
            }
            let ghost ops = list_purge_ops(listed.take(i as int), min_slot)->Ok_0;
            if rows[i].key.len() != 76 {
                proof {
                    lemma_list_stop(listed, min_slot, i + 1);
                }
                return Err(corruption("address_signatures key has unexpected length"));
            }
            let slot: u64 = u64_from_be(rows[i].key.as_slice(), 64);
            if slot < min_slot {
                batch.delete(CF_ADDRESS_SIGNATURES, slice_to_vec(rows[i].key.as_slice()));
                assert(batch@ =~= before + (statuses + ops.push(
                    Op::Delete(CF_ADDRESS_SIGNATURES, rows@[i as int].key@),
                )));
            }
            i = i + 1;
        }
        assert(listed.take(n as int) =~= listed);
        Ok(())
    }

    /// Removes what became of the transactions before `min_slot`, and their places on the
    /// lists of addresses; says how many rows that were. A row that cannot be read stops
    /// the purge before anything is removed.
    pub fn purge_transaction_data_below(&mut self, min_slot: u64) -> (r: Result<u64, StorageError>)
        ensures
            old(self).reliable() ==> final(self).reliable(),
            changed(
                old(self).reliable(),
                old(self).rows(),
                final(self).rows(),
                outcome(r),
                transaction_purge(old(self).rows(), min_slot),
            ),
    {
        let mut batch = StorageWriteBatch::new();
        match self.stage_transaction_purge(&mut batch, min_slot) {
            Ok(()) => {},
            Err(e) => return Err(e),
        }
        let ghost ops = transaction_purge_ops(self.rows(), min_slot)->Ok_0;
        assert(batch@ =~= ops);
        let count: u64 = batch.len() as u64;
        if !batch.is_empty() {
            match self.write(&batch) {
                Ok(()) => {},
                Err(e) => return Err(e),
            }
        }
        Ok(count)
    }

    /// Removes everything that is held of the slots and transactions before `min_slot`, at
    /// once.
    pub fn purge_below(&mut self, min_slot: u64) -> (r: Result<u64, StorageError>)
        ensures
            old(self).reliable() ==> final(self).reliable(),
            changed(
                old(self).reliable(),
                old(self).rows(),
                final(self).rows(),
                outcome(r),
                purge(old(self).rows(), min_slot),
            ),
            r is Ok ==> ledger_gone_below(old(self).rows(), final(self).rows(), min_slot),
    {
        proof {
            if purge(self.rows(), min_slot) is Ok {
                whole_purge_clears_the_ledger(self.rows(), min_slot);
            }
        }
        let mut batch = StorageWriteBatch::new();
        Self::stage_slot_purge(&mut batch, min_slot);
        let slots: usize = batch.len();
        assert(batch@ =~= slot_purge_ops(min_slot));
        match self.stage_transaction_purge(&mut batch, min_slot) {
            Ok(()) => {},
            Err(e) => return Err(e),
        }
        let count: u64 = (batch.len() - slots) as u64;
        if !batch.is_empty() {
            match self.write(&batch) {
                Ok(()) => {},
                Err(e) => return Err(e),
            }
        }
        Ok(min_slot.saturating_add(count))
    }
}

proof fn lemma_slot_range(slot: u64, min_slot: u64, index: u32)
    ensures
        in_range(slot_bytes(slot), slot_bytes(0), slot_bytes(min_slot)) <==> slot < min_slot,
        in_range(shred_bytes(slot, index), shred_bytes(0, 0), shred_bytes(min_slot, 0)) <==> slot
            < min_slot,
        in_range(full_block_bytes(slot), full_block_bytes(0), full_block_bytes(min_slot)) <==> slot
            < min_slot,
{
    slot_keys_are_ordered(slot, 0);
    slot_keys_are_ordered(slot, min_slot);
    shred_keys_are_ordered(slot, index, 0, 0);
    shred_keys_are_ordered(slot, index, min_slot, 0);
    full_block_keys_are_ordered(slot, 0);
    full_block_keys_are_ordered(slot, min_slot);
}

proof fn lemma_purged(rows: Rows, min_slot: u64, cf: Cf, key: Seq<u8>, at: int)
    requires
        min_slot > 0,
        0 <= at < 5,
        slot_purge_ops(min_slot)[at]->DeleteRange_0 == cf,
    ensures
        ({
            let after = apply(rows, slot_purge_ops(min_slot));
            let op = slot_purge_ops(min_slot)[at];
            raw(after, cf, key) == if in_range(key, op->DeleteRange_1, op->DeleteRange_2) {
                None
            } else {
                raw(rows, cf, key)
            }
        }),
{
    let ops = slot_purge_ops(min_slot);
    let op = ops[at];
    if in_range(key, op->DeleteRange_1, op->DeleteRange_2) {
        lemma_apply_delete(rows, ops, at, cf, key);
    } else {
        assert forall|i: int| 0 <= i < ops.len() implies !touches(#[trigger] ops[i], cf, key) by {}
        lemma_apply_untouched(rows, ops, cf, key);
    }
}

/// A purge removes what the ledger holds of the slots before `min_slot`, keeps what it
/// holds of `min_slot` and later ones, and leaves everything else as it was: accounts,
/// roots, bank hashes, the hashes of blocks.
pub proof fn purge_stops_at_its_bound(rows: Rows, min_slot: u64, slot: u64, index: u32)
    ensures
        ({
            let after = apply(rows, slot_purge_ops(min_slot));
            let gone = slot < min_slot;
            &&& raw(after, CF_BLOCKS, slot_bytes(slot)) == if gone {
                None
            } else {
                raw(rows, CF_BLOCKS, slot_bytes(slot))
            }
            &&& raw(after, CF_SLOT_META, slot_bytes(slot)) == if gone {
                None
            } else {
                raw(rows, CF_SLOT_META, slot_bytes(slot))
            }
            &&& raw(after, CF_DATA_SHREDS, shred_bytes(slot, index)) == if gone {
                None
            } else {
                raw(rows, CF_DATA_SHREDS, shred_bytes(slot, index))
            }
            &&& raw(after, CF_CODE_SHREDS, shred_bytes(slot, index)) == if gone {
                None
            } else {
                raw(rows, CF_CODE_SHREDS, shred_bytes(slot, index))
            }
            &&& raw(after, CF_DEFAULT, full_block_bytes(slot)) == if gone {
                None
            } else {
                raw(rows, CF_DEFAULT, full_block_bytes(slot))
            }
            &&& forall|cf: Cf, k: Seq<u8>|
                cf != CF_BLOCKS && cf != CF_SLOT_META && cf != CF_DATA_SHREDS && cf
                    != CF_CODE_SHREDS && cf != CF_DEFAULT ==> #[trigger] raw(after, cf, k) == raw(
                    rows,
                    cf,
                    k,
                )
        }),
{
    lemma_slot_range(slot, min_slot, index);
    let ops = slot_purge_ops(min_slot);
    let after = apply(rows, ops);
    if min_slot > 0 {
        lemma_purged(rows, min_slot, CF_BLOCKS, slot_bytes(slot), 0);
        lemma_purged(rows, min_slot, CF_SLOT_META, slot_bytes(slot), 1);
        lemma_purged(rows, min_slot, CF_DATA_SHREDS, shred_bytes(slot, index), 2);
        lemma_purged(rows, min_slot, CF_CODE_SHREDS, shred_bytes(slot, index), 3);
        lemma_purged(rows, min_slot, CF_DEFAULT, full_block_bytes(slot), 4);
        assert forall|cf: Cf, k: Seq<u8>|
            cf != CF_BLOCKS && cf != CF_SLOT_META && cf != CF_DATA_SHREDS && cf != CF_CODE_SHREDS
                && cf != CF_DEFAULT implies #[trigger] raw(after, cf, k) == raw(rows, cf, k) by {
            assert forall|i: int| 0 <= i < ops.len() implies !touches(#[trigger] ops[i], cf, k) by {}
            lemma_apply_untouched(rows, ops, cf, k);
        }
    }
}

/// What the ledger holds after a purge: of the slots before `min_slot` no header, nothing that
/// is known of them, no shred of either kind and no block, and of all later slots what it held
/// before.
pub open spec fn ledger_gone_below(rows: Rows, after: Rows, min_slot: u64) -> bool {
    &&& forall|slot: u64|
        #![trigger slot_bytes(slot)]
        {
            &&& raw(after, CF_BLOCKS, slot_bytes(slot)) == if slot < min_slot {
                None
            } else {
                raw(rows, CF_BLOCKS, slot_bytes(slot))
            }
            &&& raw(after, CF_SLOT_META, slot_bytes(slot)) == if slot < min_slot {
                None
            } else {
                raw(rows, CF_SLOT_META, slot_bytes(slot))
            }
        }
    &&& forall|slot: u64, index: u32|
        #![trigger shred_bytes(slot, index)]
        {
            &&& raw(after, CF_DATA_SHREDS, shred_bytes(slot, index)) == if slot < min_slot {
                None
            } else {
                raw(rows, CF_DATA_SHREDS, shred_bytes(slot, index))
            }
            &&& raw(after, CF_CODE_SHREDS, shred_bytes(slot, index)) == if slot < min_slot {
                None
            } else {
                raw(rows, CF_CODE_SHREDS, shred_bytes(slot, index))
            }
        }
    &&& forall|slot: u64|
        #![trigger full_block_bytes(slot)]
        raw(after, CF_DEFAULT, full_block_bytes(slot)) == if slot < min_slot {
            None
        } else {
            raw(rows, CF_DEFAULT, full_block_bytes(slot))
        }
}

/// A change to what is held of transactions.
spec fn of_transactions(op: Op) -> bool {
    op is Delete && (op->Delete_0 == CF_TRANSACTIONS || op->Delete_0 == CF_ADDRESS_SIGNATURES)
}

proof fn lemma_ledger_gone(rows: Rows, first: Seq<Op>, more: Seq<Op>, min_slot: u64)
    requires
        first == slot_purge_ops(min_slot),
        forall|i: int| 0 <= i < more.len() ==> of_transactions(#[trigger] more[i]),
    ensures
        ledger_gone_below(rows, apply(rows, first + more), min_slot),
        forall|cf: Cf, key: Seq<u8>|
            cf != CF_TRANSACTIONS && cf != CF_ADDRESS_SIGNATURES ==> #[trigger] raw(
                apply(rows, first + more),
                cf,
                key,
            ) == raw(apply(rows, first), cf, key),
{
    let middle = apply(rows, first);
    let after = apply(rows, first + more);
    lemma_apply_concat(rows, first, more);
    assert forall|cf: Cf, key: Seq<u8>|
        cf != CF_TRANSACTIONS && cf != CF_ADDRESS_SIGNATURES implies #[trigger] raw(after, cf, key)
        == raw(middle, cf, key) by {
        assert forall|i: int| 0 <= i < more.len() implies !touches(#[trigger] more[i], cf, key) by {
            assert(of_transactions(more[i]));
        }
        lemma_apply_untouched(middle, more, cf, key);
    }
    assert forall|slot: u64|
        #![trigger slot_bytes(slot)]
        {
            &&& raw(after, CF_BLOCKS, slot_bytes(slot)) == if slot < min_slot {
                None
            } else {
                raw(rows, CF_BLOCKS, slot_bytes(slot))
            }
            &&& raw(after, CF_SLOT_META, slot_bytes(slot)) == if slot < min_slot {
                None
            } else {
                raw(rows, CF_SLOT_META, slot_bytes(slot))
            }
        } by {
        purge_stops_at_its_bound(rows, min_slot, slot, 0);
    }
    assert forall|slot: u64, index: u32|
        #![trigger shred_bytes(slot, index)]
        {
            &&& raw(after, CF_DATA_SHREDS, shred_bytes(slot, index)) == if slot < min_slot {
                None
            } else {
                raw(rows, CF_DATA_SHREDS, shred_bytes(slot, index))
            }
            &&& raw(after, CF_CODE_SHREDS, shred_bytes(slot, index)) == if slot < min_slot {
                None
            } else {
                raw(rows, CF_CODE_SHREDS, shred_bytes(slot, index))
            }
        } by {
        purge_stops_at_its_bound(rows, min_slot, slot, index);
    }
    assert forall|slot: u64|
        #![trigger full_block_bytes(slot)]
        raw(after, CF_DEFAULT, full_block_bytes(slot)) == if slot < min_slot {
            None
        } else {
            raw(rows, CF_DEFAULT, full_block_bytes(slot))
        } by {
        purge_stops_at_its_bound(rows, min_slot, slot, 0);
    }
}

proof fn lemma_status_ops(found: Seq<(Seq<u8>, Seq<u8>)>, min_slot: u64)
    requires
        status_purge_ops(found, min_slot) is Ok,
    ensures
        forall|i: int|
            0 <= i < status_purge_ops(found, min_slot)->Ok_0.len() ==> of_transactions(
                #[trigger] status_purge_ops(found, min_slot)->Ok_0[i],
            ),
    decreases found.len(),
{
    if found.len() > 0 {
        lemma_status_ops(found.drop_last(), min_slot);
    }
}

proof fn lemma_list_ops(found: Seq<(Seq<u8>, Seq<u8>)>, min_slot: u64)
    requires
        list_purge_ops(found, min_slot) is Ok,
    ensures
        forall|i: int|
            0 <= i < list_purge_ops(found, min_slot)->Ok_0.len() ==> of_transactions(
                #[trigger] list_purge_ops(found, min_slot)->Ok_0[i],
            ),
    decreases found.len(),
{
    if found.len() > 0 {
        lemma_list_ops(found.drop_last(), min_slot);
    }
}

proof fn lemma_transaction_ops(rows: Rows, min_slot: u64)
    requires
        transaction_purge_ops(rows, min_slot) is Ok,
    ensures
        forall|i: int|
            0 <= i < transaction_purge_ops(rows, min_slot)->Ok_0.len() ==> of_transactions(
                #[trigger] transaction_purge_ops(rows, min_slot)->Ok_0[i],
            ),
{
    if min_slot > 0 {
        let a = walk(rows, prefix_walk(CF_TRANSACTIONS, Seq::empty()));
        let b = walk(rows, prefix_walk(CF_ADDRESS_SIGNATURES, Seq::empty()));
        lemma_status_ops(a, min_slot);
        lemma_list_ops(b, min_slot);
    }
}

/// The purge of everything leaves of the ledger what the purge of the ledger alone leaves:
/// nothing before `min_slot`, and all of the rest. Outside the ledger and the transactions it
/// changes nothing.
pub proof fn whole_purge_clears_the_ledger(rows: Rows, min_slot: u64)
    requires
        purge(rows, min_slot) is Ok,
    ensures
        ({
            let after = apply(rows, (purge(rows, min_slot)->Ok_0).0);
            &&& ledger_gone_below(rows, after, min_slot)
            &&& forall|cf: Cf, key: Seq<u8>|
                cf != CF_BLOCKS && cf != CF_SLOT_META && cf != CF_DATA_SHREDS && cf
                    != CF_CODE_SHREDS && cf != CF_DEFAULT && cf != CF_TRANSACTIONS && cf
                    != CF_ADDRESS_SIGNATURES ==> #[trigger] raw(after, cf, key) == raw(rows, cf, key)
            &&& forall|key: Seq<u8>|
                !has_prefix(key, full_block_prefix()) ==> #[trigger] raw(after, CF_DEFAULT, key)
                    == raw(rows, CF_DEFAULT, key)
        }),
{
    let first = slot_purge_ops(min_slot);
    let more = transaction_purge_ops(rows, min_slot)->Ok_0;
    let after = apply(rows, (purge(rows, min_slot)->Ok_0).0);
    lemma_transaction_ops(rows, min_slot);
    lemma_ledger_gone(rows, first, more, min_slot);
    purge_stops_at_its_bound(rows, min_slot, 0, 0);
    assert forall|key: Seq<u8>|
        !has_prefix(key, full_block_prefix()) implies #[trigger] raw(after, CF_DEFAULT, key) == raw(
        rows,
        CF_DEFAULT,
        key,
    ) by {
        assert(raw(after, CF_DEFAULT, key) == raw(apply(rows, first), CF_DEFAULT, key));
        if min_slot > 0 {
            lemma_purged(rows, min_slot, CF_DEFAULT, key, 4);
            if in_range(key, full_block_bytes(0), full_block_bytes(min_slot)) {
                lemma_between_has_prefix(
                    key,
                    full_block_prefix(),
                    slot_bytes(0),
                    slot_bytes(min_slot),
                );
            }
        }
    }
}

/// A key between two that begin alike begins like them.
proof fn lemma_between_has_prefix(key: Seq<u8>, p: Seq<u8>, a: Seq<u8>, b: Seq<u8>)
    requires
        in_range(key, p + a, p + b),
    ensures
        has_prefix(key, p),
    decreases p.len(),
{
    if p.len() == 0 {
        assert(key.subrange(0, 0) =~= p);
    } else {
        assert((p + a)[0] == p[0] && (p + b)[0] == p[0]);
        assert(key.len() > 0 && key[0] == p[0]);
        assert((p + a).drop_first() =~= p.drop_first() + a);
        assert((p + b).drop_first() =~= p.drop_first() + b);
        lemma_between_has_prefix(key.drop_first(), p.drop_first(), a, b);
        let n = p.len() as int;
        assert(key.subrange(0, n) =~= p) by {
            assert forall|i: int| 0 <= i < n implies key[i] == p[i] by {
                if i > 0 {
                    assert(key.drop_first().subrange(0, n - 1)[i - 1] == p.drop_first()[i - 1]);
                }
            }
        }
    }
}

/// A row of a transaction from before `min_slot`.
pub open spec fn is_old_status(row: (Seq<u8>, Seq<u8>), min_slot: u64) -> bool {
    decoded_front::<TransactionStatusMeta>(row.1) is Ok && (decoded_front::<TransactionStatusMeta>(
        row.1,
    )->Ok_0).0 < min_slot
}

/// A place from before `min_slot` on the list of an address.
pub open spec fn is_old_place(row: (Seq<u8>, Seq<u8>), min_slot: u64) -> bool {
    be_value(row.0.subrange(64, 72)) < min_slot
}

pub open spec fn among(
    found: Seq<(Seq<u8>, Seq<u8>)>,
    key: Seq<u8>,
    which: spec_fn((Seq<u8>, Seq<u8>)) -> bool,
) -> bool {
    exists|i: int| 0 <= i < found.len() && (#[trigger] found[i]).0 == key && which(found[i])
}

proof fn lemma_among_push(
    found: Seq<(Seq<u8>, Seq<u8>)>,
    key: Seq<u8>,
    which: spec_fn((Seq<u8>, Seq<u8>)) -> bool,
)
    requires
        found.len() > 0,
    ensures
        among(found, key, which) == (among(found.drop_last(), key, which) || (found.last().0 == key
            && which(found.last()))),
{
    let front = found.drop_last();
    if among(front, key, which) {
        let i = choose|i: int|
            0 <= i < front.len() && (#[trigger] front[i]).0 == key && which(front[i]);
        assert(found[i] == front[i]);
    }
    if found.last().0 == key && which(found.last()) {
        assert(found[found.len() - 1].0 == key);
    }
    if among(found, key, which) && !(found.last().0 == key && which(found.last())) {
        let i = choose|i: int|
            0 <= i < found.len() && (#[trigger] found[i]).0 == key && which(found[i]);
        assert(front[i] == found[i]);
    }
}

proof fn lemma_status_purged(
    rows: Rows,
    found: Seq<(Seq<u8>, Seq<u8>)>,
    min_slot: u64,
    cf: Cf,
    key: Seq<u8>,
)
    requires
        status_purge_ops(found, min_slot) is Ok,
    ensures
        raw(apply(rows, status_purge_ops(found, min_slot)->Ok_0), cf, key) == if cf
            == CF_TRANSACTIONS && among(
            found,
            key,
            |row: (Seq<u8>, Seq<u8>)| is_old_status(row, min_slot),
        ) {
            None
        } else {
            raw(rows, cf, key)
        },
    decreases found.len(),
{
    if found.len() > 0 {
        let which = |row: (Seq<u8>, Seq<u8>)| is_old_status(row, min_slot);
        let front = found.drop_last();
        lemma_status_purged(rows, front, min_slot, cf, key);
        lemma_among_push(found, key, which);
        let earlier = status_purge_ops(front, min_slot)->Ok_0;
        let ops = status_purge_ops(found, min_slot)->Ok_0;
        if is_old_status(found.last(), min_slot) {
            assert(ops.drop_last() =~= earlier);
            assert(ops.last() == Op::Delete(CF_TRANSACTIONS, found.last().0));
        }
    }
}

proof fn lemma_list_purged(
    rows: Rows,
    found: Seq<(Seq<u8>, Seq<u8>)>,
    min_slot: u64,
    cf: Cf,
    key: Seq<u8>,
)
    requires
        list_purge_ops(found, min_slot) is Ok,
    ensures
        raw(apply(rows, list_purge_ops(found, min_slot)->Ok_0), cf, key) == if cf
            == CF_ADDRESS_SIGNATURES && among(
            found,
            key,
            |row: (Seq<u8>, Seq<u8>)| is_old_place(row, min_slot),
        ) {
            None
        } else {
            raw(rows, cf, key)
        },
    decreases found.len(),
{
    if found.len() > 0 {
        let which = |row: (Seq<u8>, Seq<u8>)| is_old_place(row, min_slot);
        let front = found.drop_last();
        lemma_list_purged(rows, front, min_slot, cf, key);
        lemma_among_push(found, key, which);
        let earlier = list_purge_ops(front, min_slot)->Ok_0;
        let ops = list_purge_ops(found, min_slot)->Ok_0;
        if is_old_place(found.last(), min_slot) {
            assert(ops.drop_last() =~= earlier);
            assert(ops.last() == Op::Delete(CF_ADDRESS_SIGNATURES, found.last().0));
        }
    }
}

proof fn lemma_among_all(
    rows: Rows,
    cf: Cf,
    found: Seq<(Seq<u8>, Seq<u8>)>,
    key: Seq<u8>,
    which: spec_fn((Seq<u8>, Seq<u8>)) -> bool,
)
    requires
        walked(rows, prefix_walk(cf, Seq::empty()), found),
        found.len() < usize::MAX,
    ensures
        among(found, key, which) == (raw(rows, cf, key) is Some && which(
            (key, raw(rows, cf, key)->0),
        )),
{
    let w = prefix_walk(cf, Seq::empty());
    if raw(rows, cf, key) is Some {
        assert(key.subrange(0, 0) =~= Seq::<u8>::empty());
        assert(on_walk(w, key));
        assert(rows.contains_key((cf, key)));
        assert(reached(w, found, key));
        let i = choose|i: int| 0 <= i < found.len() && (#[trigger] found[i]).0 == key;
        assert(found[i] == (key, raw(rows, cf, key)->0));
    }
    if among(found, key, which) {
        let i = choose|i: int|
            0 <= i < found.len() && (#[trigger] found[i]).0 == key && which(found[i]);
        assert(rows.contains_key((cf, found[i].0)));
    }
}

/// A purge of transactions removes what became of those before `min_slot` and their places
/// on the lists of addresses, and nothing else.
pub proof fn transaction_purge_is_exact(
    rows: Rows,
    statuses: Seq<(Seq<u8>, Seq<u8>)>,
    lists: Seq<(Seq<u8>, Seq<u8>)>,
    min_slot: u64,
    cf: Cf,
    key: Seq<u8>,
)
    requires
        min_slot > 0,
        walked(rows, prefix_walk(CF_TRANSACTIONS, Seq::empty()), statuses),
        walked(rows, prefix_walk(CF_ADDRESS_SIGNATURES, Seq::empty()), lists),
        statuses.len() < usize::MAX,
        lists.len() < usize::MAX,
        transaction_purge_ops(rows, min_slot) is Ok,
    ensures
        ({
            let after = apply(rows, transaction_purge_ops(rows, min_slot)->Ok_0);
            let row = raw(rows, cf, key);
            raw(after, cf, key) == if row is Some && ((cf == CF_TRANSACTIONS && is_old_status(
                (key, row->0),
                min_slot,
            )) || (cf == CF_ADDRESS_SIGNATURES && is_old_place((key, row->0), min_slot))) {
                None
            } else {
                row
            }
        }),
{
    lemma_walk(rows, prefix_walk(CF_TRANSACTIONS, Seq::empty()), statuses);
    lemma_walk(rows, prefix_walk(CF_ADDRESS_SIGNATURES, Seq::empty()), lists);
    let a = status_purge_ops(statuses, min_slot)->Ok_0;
    let b = list_purge_ops(lists, min_slot)->Ok_0;
    lemma_apply_concat(rows, a, b);
    let middle = apply(rows, a);
    lemma_status_purged(rows, statuses, min_slot, cf, key);
    lemma_list_purged(middle, lists, min_slot, cf, key);
    if cf == CF_TRANSACTIONS {
        lemma_among_all(
            rows,
            cf,
            statuses,
            key,
            |row: (Seq<u8>, Seq<u8>)| is_old_status(row, min_slot),
        );
    }
    if cf == CF_ADDRESS_SIGNATURES {
        lemma_among_all(
            rows,
            cf,
            lists,
            key,
            |row: (Seq<u8>, Seq<u8>)| is_old_place(row, min_slot),
        );
    }
}

/// The rows of a kind that are among some rows of a column family.
spec fn chosen_rows(
    cf: Cf,
    found: Seq<(Seq<u8>, Seq<u8>)>,
    which: spec_fn((Seq<u8>, Seq<u8>)) -> bool,
) -> Set<(Cf, Seq<u8>)> {
    Set::new(|k: (Cf, Seq<u8>)| k.0 == cf && among(found, k.1, which))
}

spec fn distinct_keys(found: Seq<(Seq<u8>, Seq<u8>)>) -> bool {
    forall|i: int, j: int|
        0 <= i < j < found.len() ==> (#[trigger] found[i]).0 != (#[trigger] found[j]).0
}

proof fn lemma_chosen_step(
    cf: Cf,
    found: Seq<(Seq<u8>, Seq<u8>)>,
    which: spec_fn((Seq<u8>, Seq<u8>)) -> bool,
)
    requires
        found.len() > 0,
        distinct_keys(found),
    ensures
        distinct_keys(found.drop_last()),
        chosen_rows(cf, found.drop_last(), which).finite() ==> {
            let more = if which(found.last()) {
                1nat
            } else {
                0nat
            };
            &&& chosen_rows(cf, found, which).finite()
            &&& chosen_rows(cf, found, which).len() == chosen_rows(
                cf,
                found.drop_last(),
                which,
            ).len() + more
        },
{
    let front = found.drop_last();
    let key = (cf, found.last().0);
    let was = chosen_rows(cf, front, which);
    let is = chosen_rows(cf, found, which);
    assert forall|i: int, j: int| 0 <= i < j < front.len() implies (#[trigger] front[i]).0 != (
    #[trigger] front[j]).0 by {
        assert(found[i].0 != found[j].0);
    }
    assert(!was.contains(key)) by {
        if was.contains(key) {
            let i = choose|i: int|
                0 <= i < front.len() && (#[trigger] front[i]).0 == key.1 && which(front[i]);
            assert(found[i].0 != found[found.len() - 1].0);
        }
    }
    assert forall|k: (Cf, Seq<u8>)| is.contains(k) == (was.contains(k) || (k == key && which(
        found.last(),
    ))) by {
        lemma_among_push(found, k.1, which);
    }
    if which(found.last()) {
        assert(is =~= was.insert(key));
    } else {
        assert(is =~= was);
    }
}

proof fn lemma_status_count(found: Seq<(Seq<u8>, Seq<u8>)>, min_slot: u64)
    requires
        distinct_keys(found),
        status_purge_ops(found, min_slot) is Ok,
    ensures
        ({
            let gone = chosen_rows(
                CF_TRANSACTIONS,
                found,
                |row: (Seq<u8>, Seq<u8>)| is_old_status(row, min_slot),
            );
            gone.finite() && gone.len() == status_purge_ops(found, min_slot)->Ok_0.len()
        }),
    decreases found.len(),
{
    let which = |row: (Seq<u8>, Seq<u8>)| is_old_status(row, min_slot);
    if found.len() == 0 {
        assert(chosen_rows(CF_TRANSACTIONS, found, which) =~= Set::empty());
    } else {
        lemma_chosen_step(CF_TRANSACTIONS, found, which);
        lemma_status_count(found.drop_last(), min_slot);
    }
}

proof fn lemma_list_count(found: Seq<(Seq<u8>, Seq<u8>)>, min_slot: u64)
    requires
        distinct_keys(found),
        list_purge_ops(found, min_slot) is Ok,
    ensures
        ({
            let gone = chosen_rows(
                CF_ADDRESS_SIGNATURES,
                found,
                |row: (Seq<u8>, Seq<u8>)| is_old_place(row, min_slot),
            );
            gone.finite() && gone.len() == list_purge_ops(found, min_slot)->Ok_0.len()
        }),
    decreases found.len(),
{
    let which = |row: (Seq<u8>, Seq<u8>)| is_old_place(row, min_slot);
    if found.len() == 0 {
        assert(chosen_rows(CF_ADDRESS_SIGNATURES, found, which) =~= Set::empty());
    } else {
        lemma_chosen_step(CF_ADDRESS_SIGNATURES, found, which);
        lemma_list_count(found.drop_last(), min_slot);
    }
}

proof fn lemma_walk_keys(rows: Rows, cf: Cf, found: Seq<(Seq<u8>, Seq<u8>)>)
    requires
        walked(rows, prefix_walk(cf, Seq::empty()), found),
    ensures
        distinct_keys(found),
{
    assert forall|i: int, j: int| 0 <= i < j < found.len() implies (#[trigger] found[i]).0 != (
    #[trigger] found[j]).0 by {
        assert(comes_before(false, found[i].0, found[j].0));
        lemma_lex_irreflexive(found[i].0);
    }
}

proof fn lemma_status_readable(found: Seq<(Seq<u8>, Seq<u8>)>, min_slot: u64)
    ensures
        status_purge_ops(found, min_slot) is Ok <==> forall|i: int|
            0 <= i < found.len() ==> decoded_front::<TransactionStatusMeta>(
                (#[trigger] found[i]).1,
            ) is Ok,
    decreases found.len(),
{
    if found.len() > 0 {
        let front = found.drop_last();
        lemma_status_readable(front, min_slot);
        assert(found[found.len() - 1] == found.last());
        assert(forall|i: int| 0 <= i < front.len() ==> #[trigger] front[i] == found[i]);
        assert(forall|i: int|
            0 <= i < found.len() - 1 ==> #[trigger] found[i] == front[i]);
    }
}

proof fn lemma_list_readable(found: Seq<(Seq<u8>, Seq<u8>)>, min_slot: u64)
    ensures
        list_purge_ops(found, min_slot) is Ok <==> forall|i: int|
            0 <= i < found.len() ==> (#[trigger] found[i]).0.len() == 76,
    decreases found.len(),
{
    if found.len() > 0 {
        let front = found.drop_last();
        lemma_list_readable(front, min_slot);
        assert(found[found.len() - 1] == found.last());
        assert(forall|i: int| 0 <= i < front.len() ==> #[trigger] front[i] == found[i]);
        assert(forall|i: int|
            0 <= i < found.len() - 1 ==> #[trigger] found[i] == front[i]);
    }
}

/// The rows of transactions that are there in `rows` and no more in `after`.
pub open spec fn transaction_rows_gone(rows: Rows, after: Rows) -> Set<(Cf, Seq<u8>)> {
    Set::new(
        |k: (Cf, Seq<u8>)|
            (k.0 == CF_TRANSACTIONS || k.0 == CF_ADDRESS_SIGNATURES) && rows.contains_key(k)
                && !after.contains_key(k),
    )
}

/// What is held of transactions after a purge: nothing of what became of one before `min_slot`,
/// no place before `min_slot` on the list of an address, and the rest as it was.
pub open spec fn transactions_gone_below(rows: Rows, after: Rows, min_slot: u64) -> bool {
    &&& forall|key: Seq<u8>| #[trigger]
        raw(after, CF_TRANSACTIONS, key) == match raw(rows, CF_TRANSACTIONS, key) {
            Some(value) => match decoded_front::<TransactionStatusMeta>(value) {
                Ok(meta) => if meta.0 < min_slot {
                    None
                } else {
                    Some(value)
                },
                Err(_) => Some(value),
            },
            None => None,
        }
    &&& forall|address: Digest, slot: u64, tx_index: u32|
        #![trigger address_sig_bytes(address, slot, tx_index)]
        raw(after, CF_ADDRESS_SIGNATURES, address_sig_bytes(address, slot, tx_index)) == if slot
            < min_slot {
            None
        } else {
            raw(rows, CF_ADDRESS_SIGNATURES, address_sig_bytes(address, slot, tx_index))
        }
}

/// A purge of transactions takes place unless a row cannot be read. It removes what became of
/// the transactions before `min_slot` and their places on the lists of addresses, nothing
/// else, and says how many rows that were.
pub proof fn transaction_purge_tells_its_rows(rows: Rows, min_slot: u64)
    requires
        rows.dom().finite(),
        rows.dom().len() < usize::MAX,
    ensures
        ({
            let r = transaction_purge(rows, min_slot);
            let after = apply(rows, (r->Ok_0).0);
            &&& r is Ok <==> min_slot == 0 || ((forall|key: Seq<u8>| #[trigger]
                rows.contains_key((CF_TRANSACTIONS, key)) ==> decoded_front::<
                    TransactionStatusMeta,
                >(rows[(CF_TRANSACTIONS, key)]) is Ok) && (forall|key: Seq<u8>| #[trigger]
                rows.contains_key((CF_ADDRESS_SIGNATURES, key)) ==> key.len() == 76))
            &&& r is Ok ==> {
                &&& transactions_gone_below(rows, after, min_slot)
                &&& transaction_rows_gone(rows, after).finite()
                &&& (r->Ok_0).1 == transaction_rows_gone(rows, after).len()
                &&& (r->Ok_0).0.len() == transaction_rows_gone(rows, after).len()
                &&& forall|cf: Cf, key: Seq<u8>|
                    cf != CF_TRANSACTIONS && cf != CF_ADDRESS_SIGNATURES ==> #[trigger] raw(
                        after,
                        cf,
                        key,
                    ) == raw(rows, cf, key)
            }
        }),
{
    let v = prefix_walk(CF_TRANSACTIONS, Seq::empty());
    let w = prefix_walk(CF_ADDRESS_SIGNATURES, Seq::empty());
    finite_rows_have_walks(rows, v);
    finite_rows_have_walks(rows, w);
    let a = walk(rows, v);
    let b = walk(rows, w);
    walk_is_within_rows(rows, v, a);
    walk_is_within_rows(rows, w, b);
    lemma_walk_keys(rows, CF_TRANSACTIONS, a);
    lemma_walk_keys(rows, CF_ADDRESS_SIGNATURES, b);
    lemma_status_readable(a, min_slot);
    lemma_list_readable(b, min_slot);
    lemma_all_walked(rows, CF_TRANSACTIONS, a);
    lemma_all_walked(rows, CF_ADDRESS_SIGNATURES, b);
    assert((forall|i: int|
        0 <= i < a.len() ==> decoded_front::<TransactionStatusMeta>((#[trigger] a[i]).1) is Ok)
        <==> (forall|key: Seq<u8>| #[trigger]
        rows.contains_key((CF_TRANSACTIONS, key)) ==> decoded_front::<TransactionStatusMeta>(
            rows[(CF_TRANSACTIONS, key)],
        ) is Ok)) by {
        if forall|i: int|
            0 <= i < a.len() ==> decoded_front::<TransactionStatusMeta>((#[trigger] a[i]).1) is Ok {
            assert forall|key: Seq<u8>| #[trigger]
                rows.contains_key((CF_TRANSACTIONS, key)) implies decoded_front::<
                TransactionStatusMeta,
            >(rows[(CF_TRANSACTIONS, key)]) is Ok by {
                let i = choose|i: int| 0 <= i < a.len() && (#[trigger] a[i]).0 == key;
                assert(a[i].1 == rows[(CF_TRANSACTIONS, key)]);
            }
        }
    }
    assert((forall|i: int| 0 <= i < b.len() ==> (#[trigger] b[i]).0.len() == 76) <==> (forall|
        key: Seq<u8>,
    | #[trigger] rows.contains_key((CF_ADDRESS_SIGNATURES, key)) ==> key.len() == 76)) by {
        if forall|i: int| 0 <= i < b.len() ==> (#[trigger] b[i]).0.len() == 76 {
            assert forall|key: Seq<u8>| #[trigger]
                rows.contains_key((CF_ADDRESS_SIGNATURES, key)) implies key.len() == 76 by {
                let i = choose|i: int| 0 <= i < b.len() && (#[trigger] b[i]).0 == key;
                assert(b[i].0.len() == 76);
            }
        }
    }
    if transaction_purge(rows, min_slot) is Ok {
        let ops = transaction_purge_ops(rows, min_slot)->Ok_0;
        let after = apply(rows, ops);
        let gone = transaction_rows_gone(rows, after);
        if min_slot == 0 {
            assert(gone =~= Set::empty());
            assert(after == rows);
        } else {
            lemma_status_count(a, min_slot);
            lemma_list_count(b, min_slot);
            let old_status = |row: (Seq<u8>, Seq<u8>)| is_old_status(row, min_slot);
            let old_place = |row: (Seq<u8>, Seq<u8>)| is_old_place(row, min_slot);
            let first = chosen_rows(CF_TRANSACTIONS, a, old_status);
            let second = chosen_rows(CF_ADDRESS_SIGNATURES, b, old_place);
            assert forall|k: (Cf, Seq<u8>)| gone.contains(k) == (first.contains(k)
                || second.contains(k)) by {
                transaction_purge_is_exact(rows, a, b, min_slot, k.0, k.1);
                if k.0 == CF_TRANSACTIONS {
                    lemma_among_all(rows, k.0, a, k.1, old_status);
                } else if k.0 == CF_ADDRESS_SIGNATURES {
                    lemma_among_all(rows, k.0, b, k.1, old_place);
                }
                assert(raw(after, k.0, k.1) is Some == after.contains_key(k));
            }
            assert(gone =~= first.union(second));
            assert(first.disjoint(second));
            vstd::set_lib::lemma_set_disjoint_lens(first, second);
            vstd::set_lib::lemma_len_subset(gone, rows.dom());
            assert forall|cf: Cf, key: Seq<u8>|
                cf != CF_TRANSACTIONS && cf != CF_ADDRESS_SIGNATURES implies #[trigger] raw(
                after,
                cf,
                key,
            ) == raw(rows, cf, key) by {
                transaction_purge_is_exact(rows, a, b, min_slot, cf, key);
            }
            assert forall|key: Seq<u8>| #[trigger]
                raw(after, CF_TRANSACTIONS, key) == match raw(rows, CF_TRANSACTIONS, key) {
                    Some(value) => match decoded_front::<TransactionStatusMeta>(value) {
                        Ok(meta) => if meta.0 < min_slot {
                            None
                        } else {
                            Some(value)
                        },
                        Err(_) => Some(value),
                    },
                    None => None,
                } by {
                transaction_purge_is_exact(rows, a, b, min_slot, CF_TRANSACTIONS, key);
            }
            assert forall|address: Digest, slot: u64, tx_index: u32|
                #![trigger address_sig_bytes(address, slot, tx_index)]
                raw(after, CF_ADDRESS_SIGNATURES, address_sig_bytes(address, slot, tx_index))
                    == if slot < min_slot {
                    None
                } else {
                    raw(rows, CF_ADDRESS_SIGNATURES, address_sig_bytes(address, slot, tx_index))
                } by {
                let key = address_sig_bytes(address, slot, tx_index);
                transaction_purge_is_exact(rows, a, b, min_slot, CF_ADDRESS_SIGNATURES, key);
                key_lengths(address, address, slot, tx_index);
                assert(key.subrange(64, 72) =~= slot_bytes(slot));
                lemma_byte_ranges();
                lemma_be_value_of_bytes(slot as nat, 8);
            }
        }
    }
}

/// A walk over a whole column family comes to every row of it.
proof fn lemma_all_walked(rows: Rows, cf: Cf, found: Seq<(Seq<u8>, Seq<u8>)>)
    requires
        walked(rows, prefix_walk(cf, Seq::empty()), found),
        found.len() < usize::MAX,
    ensures
        forall|key: Seq<u8>| #[trigger]
            rows.contains_key((cf, key)) ==> exists|i: int|
                0 <= i < found.len() && (#[trigger] found[i]).0 == key,
{
    let w = prefix_walk(cf, Seq::empty());
    assert forall|key: Seq<u8>| #[trigger] rows.contains_key((cf, key)) implies exists|i: int|
        0 <= i < found.len() && (#[trigger] found[i]).0 == key by {
        assert(key.subrange(0, 0) =~= Seq::<u8>::empty());
        assert(on_walk(w, key));
        assert(reached(w, found, key));
    }
}

/// The purge of everything takes place unless a row of a transaction cannot be read. It removes
/// what is held of the slots and the transactions before `min_slot`, and keeps all that is held
/// of later ones. Its answer is `min_slot` and the number of rows of transactions that it
/// removed, together.
pub proof fn whole_purge_is_exact(rows: Rows, min_slot: u64)
    requires
        rows.dom().finite(),
        rows.dom().len() < usize::MAX,
    ensures
        ({
            let r = purge(rows, min_slot);
            let after = apply(rows, (r->Ok_0).0);
            &&& r is Ok <==> min_slot == 0 || ((forall|key: Seq<u8>| #[trigger]
                rows.contains_key((CF_TRANSACTIONS, key)) ==> decoded_front::<
                    TransactionStatusMeta,
                >(rows[(CF_TRANSACTIONS, key)]) is Ok) && (forall|key: Seq<u8>| #[trigger]
                rows.contains_key((CF_ADDRESS_SIGNATURES, key)) ==> key.len() == 76))
            &&& r is Ok ==> {
                &&& ledger_gone_below(rows, after, min_slot)
                &&& transactions_gone_below(rows, after, min_slot)
                &&& transaction_rows_gone(rows, after).finite()
                &&& (r->Ok_0).1 == if min_slot + transaction_rows_gone(rows, after).len()
                    > u64::MAX {
                    u64::MAX as int
                } else {
                    min_slot + transaction_rows_gone(rows, after).len()
                }
            }
        }),
{
    transaction_purge_tells_its_rows(rows, min_slot);
    if purge(rows, min_slot) is Ok {
        whole_purge_clears_the_ledger(rows, min_slot);
        let first = slot_purge_ops(min_slot);
        let more = transaction_purge_ops(rows, min_slot)->Ok_0;
        let after = apply(rows, first + more);
        let alone = apply(rows, more);
        assert forall|cf: Cf, key: Seq<u8>|
            cf == CF_TRANSACTIONS || cf == CF_ADDRESS_SIGNATURES implies #[trigger] raw(
            after,
            cf,
            key,
        ) == raw(alone, cf, key) by {
            purge_stops_at_its_bound(rows, min_slot, 0, 0);
            lemma_apply_concat(rows, first, more);
            let middle = apply(rows, first);
            assert(raw(middle, cf, key) == raw(rows, cf, key));
            lemma_apply_alike(middle, rows, more, cf, key);
        }
        assert forall|k: (Cf, Seq<u8>)| transaction_rows_gone(rows, after).contains(k)
            == transaction_rows_gone(rows, alone).contains(k) by {
            assert(raw(after, k.0, k.1) is Some == after.contains_key(k));
            assert(raw(alone, k.0, k.1) is Some == alone.contains_key(k));
        }
        assert(transaction_rows_gone(rows, after) =~= transaction_rows_gone(rows, alone));
        assert(transactions_gone_below(rows, after, min_slot)) by {
            assert forall|key: Seq<u8>| #[trigger]
                raw(after, CF_TRANSACTIONS, key) == match raw(rows, CF_TRANSACTIONS, key) {
                    Some(value) => match decoded_front::<TransactionStatusMeta>(value) {
                        Ok(meta) => if meta.0 < min_slot {
                            None
                        } else {
                            Some(value)
                        },
                        Err(_) => Some(value),
                    },
                    None => None,
                } by {
                let _ = raw(alone, CF_TRANSACTIONS, key);
            }
        }
    }
}

/// What changes make of a key depends on what it was.
proof fn lemma_apply_alike(a: Rows, b: Rows, ops: Seq<Op>, cf: Cf, key: Seq<u8>)
    requires
        raw(a, cf, key) == raw(b, cf, key),
    ensures
        raw(apply(a, ops), cf, key) == raw(apply(b, ops), cf, key),
    decreases ops.len(),
{
    if ops.len() > 0 {
        lemma_apply_alike(a, b, ops.drop_last(), cf, key);
    }
}

} // verus!
