//! What is known of a slot.

use crate::codec::{Codec, Fault};
use crate::storage::cf::CF_SLOT_META;
use crate::storage::database::Database;
use crate::storage::error::StorageError;
use crate::storage::keys::{slot_bytes, slot_key, slot_keys_are_ordered};
use crate::storage::store::{
    agrees, changed, outcome, put_record, put_then_get, record, ErrorModel, Storage,
};
use crate::storage::write_batch::{apply, Op, Rows};
use vstd::prelude::*;

verus! {

#[derive(Clone, Copy, Debug, PartialEq, Eq)]
pub struct SlotMeta {
    pub slot: u64,
    pub parent_slot: u64,
    pub block_time: Option<i64>,
    pub num_data_shreds: u32,
    pub num_code_shreds: u32,
    pub is_connected: bool,
    pub completed: bool,
}

/// The fields of what is known of a slot in the order of its layout.
pub type SlotMetaFields = (u64, (u64, (Option<i64>, (u32, (u32, (bool, bool))))));

impl Codec for SlotMeta {
    type M = <SlotMetaFields as Codec>::M;

    open spec fn model(&self) -> Self::M {
        (
            self.slot.model(),
            (
                self.parent_slot.model(),
                (
                    self.block_time.model(),
                    (
                        self.num_data_shreds.model(),
                        (
                            self.num_code_shreds.model(),
                            (self.is_connected.model(), self.completed.model()),
                        ),
                    ),
                ),
            ),
        )
    }

    open spec fn well_formed(&self) -> bool {
        true
    }

    open spec fn layout(m: Self::M) -> Seq<u8> {
        <SlotMetaFields as Codec>::layout(m)
    }

    open spec fn fits(m: Self::M) -> bool {
        <SlotMetaFields as Codec>::fits(m)
    }

    open spec fn fault(bytes: Seq<u8>) -> Fault {
        <SlotMetaFields as Codec>::fault(bytes)
    }

    proof fn prefix_free(a: Self::M, b: Self::M, s: Seq<u8>, t: Seq<u8>) {
        <SlotMetaFields as Codec>::prefix_free(a, b, s, t);
    }

    fn encode(&self, out: &mut Vec<u8>) -> (ok: bool) {
        let _ = self.slot.encode(out);
        let _ = self.parent_slot.encode(out);
        let _ = self.block_time.encode(out);
        let _ = self.num_data_shreds.encode(out);
        let _ = self.num_code_shreds.encode(out);
        let _ = self.is_connected.encode(out);
        let _ = self.completed.encode(out);
        assert(out@ =~= old(out)@ + Self::layout(self.model()));
        true
    }

    fn decode<'a>(input: &'a [u8]) -> (r: Result<(Self, &'a [u8]), Fault>) {
        match <SlotMetaFields as Codec>::decode(input) {
            Ok((
                (
                    slot,
                    (
                        parent_slot,
                        (
                            block_time,
                            (num_data_shreds, (num_code_shreds, (is_connected, completed))),
                        ),
                    ),
                ),
                rest,
            )) => Ok((
                SlotMeta {
                    slot,
                    parent_slot,
                    block_time,
                    num_data_shreds,
                    num_code_shreds,
                    is_connected,
                    completed,
                },
                rest,
            )),
            Err(f) => Err(f),
        }
    }
}

/// The change that stores what is known of a slot.
pub open spec fn put_meta_ops(m: <SlotMeta as Codec>::M) -> Result<(Seq<Op>, ()), ErrorModel> {
    put_record::<SlotMeta>(CF_SLOT_META, slot_bytes(m.0), m)
}

/// What is known of a slot.
pub open spec fn meta_at(rows: Rows, slot: u64) -> Result<
    Option<<SlotMeta as Codec>::M>,
    ErrorModel,
> {
    record::<SlotMeta>(rows, CF_SLOT_META, slot_bytes(slot))
}

impl<D: Database> Storage<D> {
    /// Stores what is known of a slot.
    pub fn put_slot_meta(&mut self, meta: &SlotMeta) -> (r: Result<(), StorageError>)
        ensures
            old(self).reliable() ==> final(self).reliable(),
            changed(
                old(self).reliable(),
                old(self).rows(),
                final(self).rows(),
                outcome(r),
                put_meta_ops(meta.model()),
            ),
    {
        let key = slot_key(meta.slot);
        self.put_record(CF_SLOT_META, key.as_slice(), meta)
    }

    /// What is known of a slot.
    pub fn get_slot_meta(&self, slot: u64) -> (r: Result<Option<SlotMeta>, StorageError>)
        ensures
            agrees(
                self.reliable(),
                outcome(r),
                meta_at(self.rows(), slot),
            ),
    {
        let key = slot_key(slot);
        self.get_record::<SlotMeta>(CF_SLOT_META, key.as_slice())
    }
}

/// What was stored of a slot is what is read of it, and what is known of all other slots stays.
pub proof fn stored_meta_reads_back(rows: Rows, m: <SlotMeta as Codec>::M, slot: u64)
    ensures
        ({
            let ops = put_meta_ops(m);
            let after = apply(rows, (ops->Ok_0).0);
            &&& ops is Ok
            &&& meta_at(after, m.0) == Ok::<Option<<SlotMeta as Codec>::M>, ErrorModel>(Some(m))
            &&& slot != m.0 ==> meta_at(after, slot) == meta_at(rows, slot)
        }),
{
    put_then_get::<SlotMeta>(rows, CF_SLOT_META, slot_bytes(m.0), m);
    slot_keys_are_ordered(slot, m.0);
    reveal_with_fuel(apply, 2);
}

/// A slot meta is written field by field, in this order.
pub proof fn slot_meta_is_written_in_order(x: SlotMeta)
    ensures
        <SlotMeta as Codec>::layout(x.model()) == <u64 as Codec>::layout(x.slot.model())
            + <u64 as Codec>::layout(x.parent_slot.model())
            + <Option<i64> as Codec>::layout(x.block_time.model())
            + <u32 as Codec>::layout(x.num_data_shreds.model())
            + <u32 as Codec>::layout(x.num_code_shreds.model())
            + <bool as Codec>::layout(x.is_connected.model())
            + <bool as Codec>::layout(x.completed.model()),
{
}

} // verus!
