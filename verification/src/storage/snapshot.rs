//! What is known of a snapshot of the ledger.

use crate::bytes::{lemma_be_bytes_of_value, lemma_byte_ranges};
use crate::codec::{Codec, Fault};
use crate::digest::Digest;
use crate::storage::cf::CF_SNAPSHOTS;
use crate::storage::database::Database;
use crate::storage::error::StorageError;
use crate::storage::keys::{slot_bytes, slot_key, slot_keys_are_ordered};
use crate::storage::store::{
    agrees, changed, decode_record, decoded, highest_slot_is_found, last_row, last_row_is_last,
    last_slot, outcome, put_record, put_then_get, record, ErrorModel, Storage,
};
use crate::storage::write_batch::{apply, Op, Rows};
use vstd::prelude::*;

verus! {

#[derive(Clone, Copy, Debug, PartialEq, Eq)]
pub struct SnapshotManifest {
    pub slot: u64,
    pub bank_hash: Digest,
    pub account_count: u64,
    pub timestamp: i64,
}

/// The fields of a manifest in the order of its layout.
pub type SnapshotManifestFields = (u64, (Digest, (u64, i64)));

impl Codec for SnapshotManifest {
    type M = <SnapshotManifestFields as Codec>::M;

    open spec fn model(&self) -> Self::M {
        (
            self.slot.model(),
            (self.bank_hash.model(), (self.account_count.model(), self.timestamp.model())),
        )
    }

    open spec fn well_formed(&self) -> bool {
        true
    }

    open spec fn layout(m: Self::M) -> Seq<u8> {
        <SnapshotManifestFields as Codec>::layout(m)
    }

    open spec fn fits(m: Self::M) -> bool {
        <SnapshotManifestFields as Codec>::fits(m)
    }

    open spec fn fault(bytes: Seq<u8>) -> Fault {
        <SnapshotManifestFields as Codec>::fault(bytes)
    }

    proof fn prefix_free(a: Self::M, b: Self::M, s: Seq<u8>, t: Seq<u8>) {
        <SnapshotManifestFields as Codec>::prefix_free(a, b, s, t);
    }

    fn encode(&self, out: &mut Vec<u8>) -> (ok: bool) {
        let _ = self.slot.encode(out);
        let _ = self.bank_hash.encode(out);
        let _ = self.account_count.encode(out);
        let _ = self.timestamp.encode(out);
        assert(out@ =~= old(out)@ + Self::layout(self.model()));
        true
    }

    fn decode<'a>(input: &'a [u8]) -> (r: Result<(Self, &'a [u8]), Fault>) {
        match <SnapshotManifestFields as Codec>::decode(input) {
            Ok(((slot, (bank_hash, (account_count, timestamp))), rest)) => Ok((
                SnapshotManifest { slot, bank_hash, account_count, timestamp },
                rest,
            )),
            Err(f) => Err(f),
        }
    }
}

/// The change that stores a manifest.
pub open spec fn put_snapshot_ops(m: <SnapshotManifest as Codec>::M) -> Result<
    (Seq<Op>, ()),
    ErrorModel,
> {
    put_record::<SnapshotManifest>(CF_SNAPSHOTS, slot_bytes(m.0), m)
}

/// The manifest of the snapshot at a slot.
pub open spec fn snapshot_at(rows: Rows, slot: u64) -> Result<
    Option<<SnapshotManifest as Codec>::M>,
    ErrorModel,
> {
    record::<SnapshotManifest>(rows, CF_SNAPSHOTS, slot_bytes(slot))
}

/// The manifest with the last key.
pub open spec fn latest_snapshot(rows: Rows) -> Result<
    Option<<SnapshotManifest as Codec>::M>,
    ErrorModel,
> {
    match last_row(rows, CF_SNAPSHOTS) {
        Some(row) => match decoded::<SnapshotManifest>(row.1) {
            Ok(m) => Ok(Some(m)),
            Err(e) => Err(e),
        },
        None => Ok(None),
    }
}

impl<D: Database> Storage<D> {
    /// Stores a manifest.
    pub fn put_snapshot(&mut self, manifest: &SnapshotManifest) -> (r: Result<(), StorageError>)
        ensures
            old(self).reliable() ==> final(self).reliable(),
            changed(
                old(self).reliable(),
                old(self).rows(),
                final(self).rows(),
                outcome(r),
                put_snapshot_ops(manifest.model()),
            ),
    {
        let key = slot_key(manifest.slot);
        self.put_record(CF_SNAPSHOTS, key.as_slice(), manifest)
    }

    /// The manifest of the snapshot at a slot.
    pub fn get_snapshot(&self, slot: u64) -> (r: Result<Option<SnapshotManifest>, StorageError>)
        ensures
            agrees(
                self.reliable(),
                outcome(r),
                snapshot_at(self.rows(), slot),
            ),
    {
        let key = slot_key(slot);
        self.get_record::<SnapshotManifest>(CF_SNAPSHOTS, key.as_slice())
    }

    /// The manifest of the latest snapshot.
    pub fn get_latest_snapshot(&self) -> (r: Result<Option<SnapshotManifest>, StorageError>)
        ensures
            agrees(self.reliable(), outcome(r), latest_snapshot(self.rows())),
    {
        match self.get_last_row(CF_SNAPSHOTS) {
            Ok(Some(row)) => match decode_record::<SnapshotManifest>(row.value.as_slice()) {
                Ok(m) => Ok(Some(m)),
                Err(e) => Err(e),
            },
            Ok(None) => Ok(None),
            Err(e) => Err(e),
        }
    }
}

/// A manifest that was stored is read at its slot, and those of other slots stay.
pub proof fn stored_snapshot_reads_back(rows: Rows, m: <SnapshotManifest as Codec>::M, slot: u64)
    ensures
        ({
            let ops = put_snapshot_ops(m);
            let after = apply(rows, (ops->Ok_0).0);
            &&& ops is Ok
            &&& snapshot_at(after, m.0) == Ok::<
                Option<<SnapshotManifest as Codec>::M>,
                ErrorModel,
            >(Some(m))
            &&& slot != m.0 ==> snapshot_at(after, slot) == snapshot_at(rows, slot)
        }),
{
    put_then_get::<SnapshotManifest>(rows, CF_SNAPSHOTS, slot_bytes(m.0), m);
    slot_keys_are_ordered(slot, m.0);
    reveal_with_fuel(apply, 2);
}

/// The latest manifest is that of the highest slot that has one; there is none only if no slot
/// has.
pub proof fn latest_snapshot_is_highest(rows: Rows)
    requires
        rows.dom().finite(),
        forall|k: Seq<u8>| #[trigger] rows.contains_key((CF_SNAPSHOTS, k)) ==> k.len() == 8,
    ensures
        latest_snapshot(rows) == Ok::<
            Option<<SnapshotManifest as Codec>::M>,
            ErrorModel,
        >(None) <==> forall|slot: u64|
            !rows.contains_key((CF_SNAPSHOTS, #[trigger] slot_bytes(slot))),
        forall|top: u64|
            rows.contains_key((CF_SNAPSHOTS, #[trigger] slot_bytes(top))) && (forall|slot: u64|
                rows.contains_key((CF_SNAPSHOTS, #[trigger] slot_bytes(slot))) ==> slot <= top)
                ==> latest_snapshot(rows) == snapshot_at(rows, top),
{
    last_row_is_last(rows, CF_SNAPSHOTS);
    highest_slot_is_found(rows, CF_SNAPSHOTS);
    assert forall|top: u64|
        rows.contains_key((CF_SNAPSHOTS, #[trigger] slot_bytes(top))) && (forall|slot: u64|
            rows.contains_key((CF_SNAPSHOTS, #[trigger] slot_bytes(slot))) ==> slot
                <= top) implies latest_snapshot(rows) == snapshot_at(rows, top) by {
        let high = last_slot(rows, CF_SNAPSHOTS)->0;
        assert(rows.contains_key((CF_SNAPSHOTS, slot_bytes(high))));
        assert(high == top);
        let key = (last_row(rows, CF_SNAPSHOTS)->0).0;
        lemma_be_bytes_of_value(key);
        lemma_byte_ranges();
    }
}

/// A snapshot manifest is written field by field, in this order.
pub proof fn snapshot_manifest_is_written_in_order(x: SnapshotManifest)
    ensures
        <SnapshotManifest as Codec>::layout(x.model()) == <u64 as Codec>::layout(x.slot.model())
            + <Digest as Codec>::layout(x.bank_hash.model())
            + <u64 as Codec>::layout(x.account_count.model())
            + <i64 as Codec>::layout(x.timestamp.model()),
{
}

} // verus!
