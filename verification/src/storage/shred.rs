//! Shreds: the pieces that a block is cut into, and the parity pieces beside them.

use crate::bytes::{
    be_value, lemma_be_bytes_len, lemma_be_bytes_of_value, lemma_byte_ranges, lex_less,
};
use crate::codec::{lemma_byte_model, Codec, Fault};
use crate::storage::cf::{CF_CODE_SHREDS, CF_DATA_SHREDS};
use crate::storage::database::{has_prefix, Database};
use crate::storage::error::StorageError;
use crate::storage::keys::{
    shred_bytes, shred_key, shred_keys_are_ordered, slot_bytes, slot_key,
};
use crate::storage::store::{
    agrees, changed, decoded, is_record_list, outcome, put_record, put_then_get, record,
    record_list_is_complete, records_under, ErrorModel, Storage,
};
use crate::storage::write_batch::{apply, Op, Rows};
use vstd::prelude::*;
use vstd::slice::slice_to_vec;

verus! {

/// A piece of a block.
#[derive(Debug, PartialEq, Eq)]
pub struct DataShred {
    pub slot: u64,
    pub index: u32,
    pub parent_offset: u16,
    pub data: Vec<u8>,
    pub flags: u8,
}

/// A parity piece of a group of data shreds.
#[derive(Debug, PartialEq, Eq)]
pub struct CodeShred {
    pub slot: u64,
    pub index: u32,
    pub num_data_shreds: u32,
    pub num_code_shreds: u32,
    pub position: u32,
    pub data: Vec<u8>,
}

impl Clone for DataShred {
    fn clone(&self) -> (r: Self)
        ensures
            r.model() == self.model(),
    {
        DataShred {
            slot: self.slot,
            index: self.index,
            parent_offset: self.parent_offset,
            data: slice_to_vec(self.data.as_slice()),
            flags: self.flags,
        }
    }
}

impl Clone for CodeShred {
    fn clone(&self) -> (r: Self)
        ensures
            r.model() == self.model(),
    {
        CodeShred {
            slot: self.slot,
            index: self.index,
            num_data_shreds: self.num_data_shreds,
            num_code_shreds: self.num_code_shreds,
            position: self.position,
            data: slice_to_vec(self.data.as_slice()),
        }
    }
}

/// The fields of a data shred in the order of its layout.
pub type DataShredFields = (u64, (u32, (u16, (Vec<u8>, u8))));

/// The fields of a code shred in the order of its layout.
pub type CodeShredFields = (u64, (u32, (u32, (u32, (u32, Vec<u8>)))));

impl Codec for DataShred {
    type M = (u64, (u32, (u16, (Seq<u8>, u8))));

    open spec fn model(&self) -> Self::M {
        (self.slot, (self.index, (self.parent_offset, (self.data@, self.flags))))
    }

    open spec fn well_formed(&self) -> bool {
        true
    }

    open spec fn layout(m: Self::M) -> Seq<u8> {
        <DataShredFields as Codec>::layout(m)
    }

    open spec fn fits(m: Self::M) -> bool {
        <DataShredFields as Codec>::fits(m)
    }

    open spec fn fault(bytes: Seq<u8>) -> Fault {
        <DataShredFields as Codec>::fault(bytes)
    }

    proof fn prefix_free(a: Self::M, b: Self::M, s: Seq<u8>, t: Seq<u8>) {
        <DataShredFields as Codec>::prefix_free(a, b, s, t);
    }

    fn encode(&self, out: &mut Vec<u8>) -> (ok: bool) {
        let _ = self.slot.encode(out);
        let _ = self.index.encode(out);
        let _ = self.parent_offset.encode(out);
        let ok = self.data.encode(out);
        let _ = self.flags.encode(out);
        proof {
            lemma_byte_model(self.data@);
            assert(ok ==> out@ =~= old(out)@ + Self::layout(self.model()));
        }
        ok
    }

    fn decode<'a>(input: &'a [u8]) -> (r: Result<(Self, &'a [u8]), Fault>) {
        match <DataShredFields as Codec>::decode(input) {
            Ok(((slot, (index, (parent_offset, (data, flags)))), rest)) => {
                proof {
                    lemma_byte_model(data@);
                }
                Ok((DataShred { slot, index, parent_offset, data, flags }, rest))
            },
            Err(f) => Err(f),
        }
    }
}

impl Codec for CodeShred {
    type M = (u64, (u32, (u32, (u32, (u32, Seq<u8>)))));

    open spec fn model(&self) -> Self::M {
        (
            self.slot,
            (
                self.index,
                (self.num_data_shreds, (self.num_code_shreds, (self.position, self.data@))),
            ),
        )
    }

    open spec fn well_formed(&self) -> bool {
        true
    }

    open spec fn layout(m: Self::M) -> Seq<u8> {
        <CodeShredFields as Codec>::layout(m)
    }

    open spec fn fits(m: Self::M) -> bool {
        <CodeShredFields as Codec>::fits(m)
    }

    open spec fn fault(bytes: Seq<u8>) -> Fault {
        <CodeShredFields as Codec>::fault(bytes)
    }

    proof fn prefix_free(a: Self::M, b: Self::M, s: Seq<u8>, t: Seq<u8>) {
        <CodeShredFields as Codec>::prefix_free(a, b, s, t);
    }

    fn encode(&self, out: &mut Vec<u8>) -> (ok: bool) {
        let _ = self.slot.encode(out);
        let _ = self.index.encode(out);
        let _ = self.num_data_shreds.encode(out);
        let _ = self.num_code_shreds.encode(out);
        let _ = self.position.encode(out);
        let ok = self.data.encode(out);
        proof {
            lemma_byte_model(self.data@);
            assert(ok ==> out@ =~= old(out)@ + Self::layout(self.model()));
        }
        ok
    }

    fn decode<'a>(input: &'a [u8]) -> (r: Result<(Self, &'a [u8]), Fault>) {
        match <CodeShredFields as Codec>::decode(input) {
            Ok(((slot, (index, (num_data_shreds, (num_code_shreds, (position, data))))), rest))
            => {
                proof {
                    lemma_byte_model(data@);
                }
                Ok(
                    (
                        CodeShred {
                            slot,
                            index,
                            num_data_shreds,
                            num_code_shreds,
                            position,
                            data,
                        },
                        rest,
                    ),
                )
            },
            Err(f) => Err(f),
        }
    }
}

/// The change that stores a data shred.
pub open spec fn put_data_ops(m: <DataShred as Codec>::M) -> Result<(Seq<Op>, ()), ErrorModel> {
    put_record::<DataShred>(CF_DATA_SHREDS, shred_bytes(m.0, (m.1).0), m)
}

/// The data shred at a place.
pub open spec fn data_shred_at(rows: Rows, slot: u64, index: u32) -> Result<
    Option<<DataShred as Codec>::M>,
    ErrorModel,
> {
    record::<DataShred>(rows, CF_DATA_SHREDS, shred_bytes(slot, index))
}

/// The data shreds of a slot, in their order.
pub open spec fn data_shreds_of(rows: Rows, slot: u64) -> Result<
    Seq<<DataShred as Codec>::M>,
    ErrorModel,
> {
    records_under::<DataShred>(rows, CF_DATA_SHREDS, slot_bytes(slot))
}

/// The change that stores a code shred.
pub open spec fn put_code_ops(m: <CodeShred as Codec>::M) -> Result<(Seq<Op>, ()), ErrorModel> {
    put_record::<CodeShred>(CF_CODE_SHREDS, shred_bytes(m.0, (m.1).0), m)
}

/// The code shred at a place.
pub open spec fn code_shred_at(rows: Rows, slot: u64, index: u32) -> Result<
    Option<<CodeShred as Codec>::M>,
    ErrorModel,
> {
    record::<CodeShred>(rows, CF_CODE_SHREDS, shred_bytes(slot, index))
}

/// The code shreds of a slot, in their order.
pub open spec fn code_shreds_of(rows: Rows, slot: u64) -> Result<
    Seq<<CodeShred as Codec>::M>,
    ErrorModel,
> {
    records_under::<CodeShred>(rows, CF_CODE_SHREDS, slot_bytes(slot))
}

impl<D: Database> Storage<D> {
    /// Stores a data shred.
    pub fn put_data_shred(&mut self, shred: &DataShred) -> (r: Result<(), StorageError>)
        ensures
            old(self).reliable() ==> final(self).reliable(),
            changed(
                old(self).reliable(),
                old(self).rows(),
                final(self).rows(),
                outcome(r),
                put_data_ops(shred.model()),
            ),
    {
        let key = shred_key(shred.slot, shred.index);
        self.put_record(CF_DATA_SHREDS, key.as_slice(), shred)
    }

    /// A data shred by its place.
    pub fn get_data_shred(&self, slot: u64, index: u32) -> (r: Result<Option<DataShred>, StorageError>)
        ensures
            agrees(
                self.reliable(),
                outcome(r),
                data_shred_at(self.rows(), slot, index),
            ),
    {
        let key = shred_key(slot, index);
        self.get_record::<DataShred>(CF_DATA_SHREDS, key.as_slice())
    }

    /// The data shreds of a slot, in their order.
    pub fn get_data_shreds_for_slot(&self, slot: u64) -> (r: Result<Vec<DataShred>, StorageError>)
        ensures
            agrees(
                self.reliable(),
                outcome(r),
                data_shreds_of(self.rows(), slot),
            ),
    {
        let prefix = slot_key(slot);
        self.get_records_under::<DataShred>(CF_DATA_SHREDS, prefix.as_slice())
    }

    /// Stores a code shred.
    pub fn put_code_shred(&mut self, shred: &CodeShred) -> (r: Result<(), StorageError>)
        ensures
            old(self).reliable() ==> final(self).reliable(),
            changed(
                old(self).reliable(),
                old(self).rows(),
                final(self).rows(),
                outcome(r),
                put_code_ops(shred.model()),
            ),
    {
        let key = shred_key(shred.slot, shred.index);
        self.put_record(CF_CODE_SHREDS, key.as_slice(), shred)
    }

    /// A code shred by its place.
    pub fn get_code_shred(&self, slot: u64, index: u32) -> (r: Result<Option<CodeShred>, StorageError>)
        ensures
            agrees(
                self.reliable(),
                outcome(r),
                code_shred_at(self.rows(), slot, index),
            ),
    {
        let key = shred_key(slot, index);
        self.get_record::<CodeShred>(CF_CODE_SHREDS, key.as_slice())
    }

    /// The code shreds of a slot, in their order.
    pub fn get_code_shreds_for_slot(&self, slot: u64) -> (r: Result<Vec<CodeShred>, StorageError>)
        ensures
            agrees(
                self.reliable(),
                outcome(r),
                code_shreds_of(self.rows(), slot),
            ),
    {
        let prefix = slot_key(slot);
        self.get_records_under::<CodeShred>(CF_CODE_SHREDS, prefix.as_slice())
    }
}

/// A key of a shred of a slot.
proof fn lemma_shred_key(k: Seq<u8>, slot: u64)
    requires
        k.len() == 12,
        has_prefix(k, slot_bytes(slot)),
    ensures
        shred_bytes(slot, be_value(k.subrange(8, 12)) as u32) == k,
{
    lemma_be_bytes_len(slot as nat, 8);
    lemma_be_bytes_of_value(k.subrange(8, 12));
    lemma_byte_ranges();
    assert(k =~= k.subrange(0, 8) + k.subrange(8, 12));
}

/// A data shred that was stored is read at its slot and index, and is on the list of its slot.
/// All other shreds, of both kinds, are as they were.
pub proof fn stored_data_shred_reads_back(
    rows: Rows,
    m: <DataShred as Codec>::M,
    slot: u64,
    index: u32,
)
    requires
        DataShred::fits(m),
    ensures
        ({
            let ops = put_data_ops(m);
            let after = apply(rows, (ops->Ok_0).0);
            &&& ops is Ok
            &&& data_shred_at(after, m.0, (m.1).0) == Ok::<
                Option<<DataShred as Codec>::M>,
                ErrorModel,
            >(Some(m))
            &&& slot != m.0 || index != (m.1).0 ==> data_shred_at(after, slot, index)
                == data_shred_at(rows, slot, index)
            &&& code_shred_at(after, slot, index) == code_shred_at(rows, slot, index)
        }),
{
    let key = shred_bytes(m.0, (m.1).0);
    put_then_get::<DataShred>(rows, CF_DATA_SHREDS, key, m);
    shred_keys_are_ordered(slot, index, m.0, (m.1).0);
    reveal_with_fuel(apply, 2);
}

/// The list of a slot's data shreds is complete and in order: every shred that is stored of the
/// slot is there once, by index, and none of another slot is.
pub proof fn data_shreds_of_slot_are_listed_in_order(rows: Rows, slot: u64)
    requires
        rows.dom().finite(),
        rows.dom().len() < usize::MAX,
        forall|k: Seq<u8>| #[trigger] rows.contains_key((CF_DATA_SHREDS, k)) ==> k.len() == 12,
    ensures
        data_shreds_of(rows, slot) matches Ok(list) ==> exists|indices: Seq<u32>| #[trigger]
            is_data_list(rows, slot, indices, list),
        data_shreds_of(rows, slot) is Ok <==> forall|index: u32|
            rows.contains_key((CF_DATA_SHREDS, #[trigger] shred_bytes(slot, index))) ==> decoded::<
                DataShred,
            >(rows[(CF_DATA_SHREDS, shred_bytes(slot, index))]) is Ok,
{
    let prefix = slot_bytes(slot);
    record_list_is_complete::<DataShred>(rows, CF_DATA_SHREDS, prefix);
    assert forall|k: Seq<u8>| #[trigger]
        rows.contains_key((CF_DATA_SHREDS, k)) && has_prefix(k, prefix) implies shred_bytes(
        slot,
        be_value(k.subrange(8, 12)) as u32,
    ) == k by {
        lemma_shred_key(k, slot);
    }
    assert forall|index: u32| has_prefix(#[trigger] shred_bytes(slot, index), prefix) by {
        lemma_be_bytes_len(slot as nat, 8);
        assert(shred_bytes(slot, index).subrange(0, 8) =~= prefix);
    }
    if data_shreds_of(rows, slot) is Ok {
        let list = data_shreds_of(rows, slot)->Ok_0;
        let keys = choose|keys: Seq<Seq<u8>>| #[trigger]
            is_record_list::<DataShred>(rows, CF_DATA_SHREDS, prefix, keys, list);
        let indices = Seq::new(keys.len(), |i: int| be_value(keys[i].subrange(8, 12)) as u32);
        assert forall|i: int, j: int| 0 <= i < j < indices.len() implies (#[trigger] indices[i])
            < (#[trigger] indices[j]) by {
            assert(lex_less(keys[i], keys[j]));
            assert(rows.contains_key((
                CF_DATA_SHREDS,
                keys[i],
            )) && rows.contains_key((CF_DATA_SHREDS, keys[j])));
            shred_keys_are_ordered(slot, indices[i], slot, indices[j]);
        }
        assert forall|i: int| 0 <= i < indices.len() implies {
            let key = shred_bytes(slot, #[trigger] indices[i]);
            &&& rows.contains_key((CF_DATA_SHREDS, key))
            &&& decoded::<DataShred>(rows[(
                CF_DATA_SHREDS,
                key,
            )]) == Ok::<<DataShred as Codec>::M, ErrorModel>(list[i])
        } by {
            assert(rows.contains_key((CF_DATA_SHREDS, keys[i])));
        }
        assert forall|index: u32|
            rows.contains_key((
                CF_DATA_SHREDS,
                #[trigger] shred_bytes(slot, index),
            )) implies indices.contains(
            index,
        ) by {
            let k = shred_bytes(slot, index);
            let i = choose|i: int| 0 <= i < keys.len() && keys[i] == k;
            shred_keys_are_ordered(slot, index, slot, indices[i]);
            assert(indices[i] == index);
        }
        assert(is_data_list(rows, slot, indices, list));
    }
}

/// `list` holds the data shreds of a slot at the places `indices`: all that there are, ascending.
pub open spec fn is_data_list(
    rows: Rows,
    slot: u64,
    indices: Seq<u32>,
    list: Seq<<DataShred as Codec>::M>,
) -> bool {
    &&& indices.len() == list.len()
    &&& forall|i: int, j: int|
        0 <= i < j < indices.len() ==> (#[trigger] indices[i]) < (#[trigger] indices[j])
    &&& forall|i: int|
        0 <= i < indices.len() ==> {
            let key = shred_bytes(slot, #[trigger] indices[i]);
            &&& rows.contains_key((CF_DATA_SHREDS, key))
            &&& decoded::<DataShred>(rows[(
                CF_DATA_SHREDS,
                key,
            )]) == Ok::<<DataShred as Codec>::M, ErrorModel>(list[i])
        }
    &&& forall|index: u32|
        rows.contains_key((
            CF_DATA_SHREDS,
            #[trigger] shred_bytes(slot, index),
        )) ==> indices.contains(index)
}

/// A code shred that was stored is read at its slot and index, and is on the list of its slot.
/// All other shreds, of both kinds, are as they were.
pub proof fn stored_code_shred_reads_back(
    rows: Rows,
    m: <CodeShred as Codec>::M,
    slot: u64,
    index: u32,
)
    requires
        CodeShred::fits(m),
    ensures
        ({
            let ops = put_code_ops(m);
            let after = apply(rows, (ops->Ok_0).0);
            &&& ops is Ok
            &&& code_shred_at(after, m.0, (m.1).0) == Ok::<
                Option<<CodeShred as Codec>::M>,
                ErrorModel,
            >(Some(m))
            &&& slot != m.0 || index != (m.1).0 ==> code_shred_at(after, slot, index)
                == code_shred_at(rows, slot, index)
            &&& data_shred_at(after, slot, index) == data_shred_at(rows, slot, index)
        }),
{
    let key = shred_bytes(m.0, (m.1).0);
    put_then_get::<CodeShred>(rows, CF_CODE_SHREDS, key, m);
    shred_keys_are_ordered(slot, index, m.0, (m.1).0);
    reveal_with_fuel(apply, 2);
}

/// The list of a slot's code shreds is complete and in order: every shred that is stored of the
/// slot is there once, by index, and none of another slot is.
pub proof fn code_shreds_of_slot_are_listed_in_order(rows: Rows, slot: u64)
    requires
        rows.dom().finite(),
        rows.dom().len() < usize::MAX,
        forall|k: Seq<u8>| #[trigger] rows.contains_key((CF_CODE_SHREDS, k)) ==> k.len() == 12,
    ensures
        code_shreds_of(rows, slot) matches Ok(list) ==> exists|indices: Seq<u32>| #[trigger]
            is_code_list(rows, slot, indices, list),
        code_shreds_of(rows, slot) is Ok <==> forall|index: u32|
            rows.contains_key((CF_CODE_SHREDS, #[trigger] shred_bytes(slot, index))) ==> decoded::<
                CodeShred,
            >(rows[(CF_CODE_SHREDS, shred_bytes(slot, index))]) is Ok,
{
    let prefix = slot_bytes(slot);
    record_list_is_complete::<CodeShred>(rows, CF_CODE_SHREDS, prefix);
    assert forall|k: Seq<u8>| #[trigger]
        rows.contains_key((CF_CODE_SHREDS, k)) && has_prefix(k, prefix) implies shred_bytes(
        slot,
        be_value(k.subrange(8, 12)) as u32,
    ) == k by {
        lemma_shred_key(k, slot);
    }
    assert forall|index: u32| has_prefix(#[trigger] shred_bytes(slot, index), prefix) by {
        lemma_be_bytes_len(slot as nat, 8);
        assert(shred_bytes(slot, index).subrange(0, 8) =~= prefix);
    }
    if code_shreds_of(rows, slot) is Ok {
        let list = code_shreds_of(rows, slot)->Ok_0;
        let keys = choose|keys: Seq<Seq<u8>>| #[trigger]
            is_record_list::<CodeShred>(rows, CF_CODE_SHREDS, prefix, keys, list);
        let indices = Seq::new(keys.len(), |i: int| be_value(keys[i].subrange(8, 12)) as u32);
        assert forall|i: int, j: int| 0 <= i < j < indices.len() implies (#[trigger] indices[i])
            < (#[trigger] indices[j]) by {
            assert(lex_less(keys[i], keys[j]));
            assert(rows.contains_key((
                CF_CODE_SHREDS,
                keys[i],
            )) && rows.contains_key((CF_CODE_SHREDS, keys[j])));
            shred_keys_are_ordered(slot, indices[i], slot, indices[j]);
        }
        assert forall|i: int| 0 <= i < indices.len() implies {
            let key = shred_bytes(slot, #[trigger] indices[i]);
            &&& rows.contains_key((CF_CODE_SHREDS, key))
            &&& decoded::<CodeShred>(rows[(
                CF_CODE_SHREDS,
                key,
            )]) == Ok::<<CodeShred as Codec>::M, ErrorModel>(list[i])
        } by {
            assert(rows.contains_key((CF_CODE_SHREDS, keys[i])));
        }
        assert forall|index: u32|
            rows.contains_key((
                CF_CODE_SHREDS,
                #[trigger] shred_bytes(slot, index),
            )) implies indices.contains(
            index,
        ) by {
            let k = shred_bytes(slot, index);
            let i = choose|i: int| 0 <= i < keys.len() && keys[i] == k;
            shred_keys_are_ordered(slot, index, slot, indices[i]);
            assert(indices[i] == index);
        }
        assert(is_code_list(rows, slot, indices, list));
    }
}

/// `list` holds the code shreds of a slot at the places `indices`: all that there are, ascending.
pub open spec fn is_code_list(
    rows: Rows,
    slot: u64,
    indices: Seq<u32>,
    list: Seq<<CodeShred as Codec>::M>,
) -> bool {
    &&& indices.len() == list.len()
    &&& forall|i: int, j: int|
        0 <= i < j < indices.len() ==> (#[trigger] indices[i]) < (#[trigger] indices[j])
    &&& forall|i: int|
        0 <= i < indices.len() ==> {
            let key = shred_bytes(slot, #[trigger] indices[i]);
            &&& rows.contains_key((CF_CODE_SHREDS, key))
            &&& decoded::<CodeShred>(rows[(
                CF_CODE_SHREDS,
                key,
            )]) == Ok::<<CodeShred as Codec>::M, ErrorModel>(list[i])
        }
    &&& forall|index: u32|
        rows.contains_key((
            CF_CODE_SHREDS,
            #[trigger] shred_bytes(slot, index),
        )) ==> indices.contains(index)
}

/// A data shred is written field by field, in this order.
pub proof fn data_shred_is_written_in_order(x: DataShred)
    ensures
        <DataShred as Codec>::layout(x.model()) == <u64 as Codec>::layout(x.slot.model())
            + <u32 as Codec>::layout(x.index.model())
            + <u16 as Codec>::layout(x.parent_offset.model())
            + <Vec<u8> as Codec>::layout(x.data.model())
            + <u8 as Codec>::layout(x.flags.model()),
{
    lemma_byte_model(x.data@);
}

/// A code shred is written field by field, in this order.
pub proof fn code_shred_is_written_in_order(x: CodeShred)
    ensures
        <CodeShred as Codec>::layout(x.model()) == <u64 as Codec>::layout(x.slot.model())
            + <u32 as Codec>::layout(x.index.model())
            + <u32 as Codec>::layout(x.num_data_shreds.model())
            + <u32 as Codec>::layout(x.num_code_shreds.model())
            + <u32 as Codec>::layout(x.position.model())
            + <Vec<u8> as Codec>::layout(x.data.model()),
{
    lemma_byte_model(x.data@);
}

} // verus!
