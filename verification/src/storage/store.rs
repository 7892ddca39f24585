//! The store: a database, and what its rows stand for.

use crate::bytes::{be_value, lemma_be_bytes_of_value, lemma_byte_ranges, lex_less, u64_from_be};
use crate::codec::{
    encodes, from_slice, layout_is_injective, models, misreading, to_vec, Codec, CodecError,
};
use crate::digest::{digest_of, lemma_digest_of, Digest};
use crate::storage::cf::Cf;
use crate::storage::database::{
    comes_before, finite_rows_have_walks, has_prefix, lemma_walk, on_walk, reached, views, walk,
    walk_is_within_rows, walked, Database, Row, Walk, WalkModel,
};
use crate::storage::keys::{slot_bytes, slot_keys_are_ordered};
use crate::storage::error::StorageError;
use crate::storage::write_batch::{
    apply, changes_keep_rows_finite, Op, Rows, StorageWriteBatch,
};
use crate::text::string;
use vstd::prelude::*;
use vstd::slice::slice_to_vec;

verus! {

/// A failure, as a mathematical value.
pub enum ErrorModel {
    /// The database failed.
    Database,
    Serialization(CodecError),
    Deserialization(CodecError),
    Corruption(Seq<char>),
    Io(Seq<char>),
}

pub open spec fn error_model(e: StorageError) -> ErrorModel {
    match e {
        StorageError::RocksDb(_) => ErrorModel::Database,
        StorageError::CfNotFound(_) => ErrorModel::Database,
        StorageError::Serialization(c) => ErrorModel::Serialization(c),
        StorageError::Deserialization(c) => ErrorModel::Deserialization(c),
        StorageError::Corruption(s) => ErrorModel::Corruption(s@),
        StorageError::Io(s) => ErrorModel::Io(s@),
    }
}

/// A result, as a mathematical value.
pub open spec fn outcome<T: Codec>(r: Result<T, StorageError>) -> Result<T::M, ErrorModel> {
    match r {
        Ok(v) => Ok(v.model()),
        Err(e) => Err(error_model(e)),
    }
}

/// A read gave what it should, or the database failed.
pub open spec fn agrees<M>(
    reliable: bool,
    got: Result<M, ErrorModel>,
    want: Result<M, ErrorModel>,
) -> bool {
    got == want || (!reliable && got == Err::<M, ErrorModel>(ErrorModel::Database))
}

/// A change was made as it should be, or refused as it should be, or the database failed
/// and the change was made as a whole or not at all. `want` gives the change and what is
/// answered, or the reason of the refusal.
pub open spec fn changed<M>(
    reliable: bool,
    before: Rows,
    after: Rows,
    got: Result<M, ErrorModel>,
    want: Result<(Seq<Op>, M), ErrorModel>,
) -> bool {
    match want {
        Ok((ops, answer)) => {
            ||| got == Ok::<M, ErrorModel>(answer) && after == apply(before, ops)
            ||| !reliable && got == Err::<M, ErrorModel>(ErrorModel::Database) && (after == before
                || after == apply(before, ops))
        },
        Err(e) => after == before && agrees(reliable, got, Err(e)),
    }
}

/// The value whose layout is exactly `bytes`.
pub open spec fn decoded<T: Codec>(bytes: Seq<u8>) -> Result<T::M, ErrorModel> {
    if exists|m: T::M| encodes::<T>(bytes, m) {
        Ok(choose|m: T::M| encodes::<T>(bytes, m))
    } else {
        Err(ErrorModel::Deserialization(misreading::<T>(bytes)))
    }
}

/// `bytes` begin with the layout of `m`.
pub open spec fn begins_with<T: Codec>(bytes: Seq<u8>, m: T::M) -> bool {
    T::fits(m) && exists|rest: Seq<u8>| bytes == #[trigger] (T::layout(m) + rest)
}

/// The value whose layout `bytes` begin with.
pub open spec fn decoded_front<T: Codec>(bytes: Seq<u8>) -> Result<T::M, ErrorModel> {
    if exists|m: T::M| begins_with::<T>(bytes, m) {
        Ok(choose|m: T::M| begins_with::<T>(bytes, m))
    } else {
        Err(ErrorModel::Deserialization(CodecError::Malformed(T::fault(bytes))))
    }
}

/// The layout of a value, if it has one.
pub open spec fn encoded<T: Codec>(m: T::M) -> Result<Seq<u8>, ErrorModel> {
    if T::fits(m) {
        Ok(T::layout(m))
    } else {
        Err(ErrorModel::Serialization(CodecError::TooLong))
    }
}

/// Decoding gives back what was encoded.
pub proof fn decoded_inverts_encoded<T: Codec>(m: T::M)
    requires
        T::fits(m),
    ensures
        decoded::<T>(T::layout(m)) == Ok::<T::M, ErrorModel>(m),
        decoded_front::<T>(T::layout(m)) == Ok::<T::M, ErrorModel>(m),
{
    let bytes = T::layout(m);
    assert(encodes::<T>(bytes, m));
    layout_is_injective::<T>(m, choose|x: T::M| encodes::<T>(bytes, x));
    assert(bytes =~= T::layout(m) + Seq::<u8>::empty());
    assert(begins_with::<T>(bytes, m));
    let x = choose|x: T::M| begins_with::<T>(bytes, x);
    let rest = choose|rest: Seq<u8>| bytes == #[trigger] (T::layout(x) + rest);
    T::prefix_free(m, x, Seq::empty(), rest);
}

/// The bytes of a record.
pub fn encode_record<T: Codec>(value: &T) -> (r: Result<Vec<u8>, StorageError>)
    ensures
        match r {
            Ok(bytes) => encoded::<T>(value.model()) == Ok::<Seq<u8>, ErrorModel>(bytes@),
            Err(e) => encoded::<T>(value.model()) == Err::<Seq<u8>, ErrorModel>(error_model(e)),
        },
{
    match to_vec(value) {
        Ok(bytes) => Ok(bytes),
        Err(e) => Err(StorageError::Serialization(e)),
    }
}

/// The record whose bytes these are.
pub fn decode_record<T: Codec>(bytes: &[u8]) -> (r: Result<T, StorageError>)
    ensures
        outcome(r) == decoded::<T>(bytes@),
        r is Ok ==> r->Ok_0.well_formed(),
{
    match from_slice::<T>(bytes) {
        Ok(v) => {
            proof {
                layout_is_injective::<T>(v.model(), choose|m: T::M| encodes::<T>(bytes@, m));
            }
            Ok(v)
        },
        Err(e) => Err(StorageError::Deserialization(e)),
    }
}

/// The record that the bytes begin with; what stands behind it is ignored.
pub fn decode<T: Codec>(bytes: &[u8]) -> (r: Result<T, StorageError>)
    ensures
        outcome(r) == decoded_front::<T>(bytes@),
        r is Ok ==> r->Ok_0.well_formed(),
{
    match T::decode(bytes) {
        Ok((v, rest)) => {
            proof {
                assert(begins_with::<T>(bytes@, v.model()));
                let x = choose|x: T::M| begins_with::<T>(bytes@, x);
                let other = choose|other: Seq<u8>| bytes@ == #[trigger] (T::layout(x) + other);
                T::prefix_free(v.model(), x, rest@, other);
            }
            Ok(v)
        },
        Err(f) => Err(StorageError::Deserialization(CodecError::Malformed(f))),
    }
}

/// A report of damaged data.
pub fn corruption(text: &str) -> (r: StorageError)
    ensures
        error_model(r) == ErrorModel::Corruption(text@),
{
    StorageError::Corruption(string(text))
}

/// The value of a key, if it has one.
pub open spec fn raw(rows: Rows, cf: Cf, key: Seq<u8>) -> Option<Seq<u8>> {
    if rows.contains_key((cf, key)) {
        Some(rows[(cf, key)])
    } else {
        None
    }
}

/// The record of a key, if it has one.
pub open spec fn record<T: Codec>(rows: Rows, cf: Cf, key: Seq<u8>) -> Result<
    Option<T::M>,
    ErrorModel,
> {
    match raw(rows, cf, key) {
        Some(bytes) => match decoded::<T>(bytes) {
            Ok(m) => Ok(Some(m)),
            Err(e) => Err(e),
        },
        None => Ok(None),
    }
}

/// The change that gives a key a record.
pub open spec fn put_record<T: Codec>(cf: Cf, key: Seq<u8>, m: T::M) -> Result<
    (Seq<Op>, ()),
    ErrorModel,
> {
    match encoded::<T>(m) {
        Ok(bytes) => Ok((seq![Op::Put(cf, key, bytes)], ())),
        Err(e) => Err(e),
    }
}

/// A record that was put is what is read.
pub proof fn put_then_get<T: Codec>(rows: Rows, cf: Cf, key: Seq<u8>, m: T::M)
    requires
        T::fits(m),
    ensures
        put_record::<T>(cf, key, m) is Ok,
        record::<T>(apply(rows, (put_record::<T>(cf, key, m)->Ok_0).0), cf, key) == Ok::<
            Option<T::M>,
            ErrorModel,
        >(Some(m)),
{
    decoded_inverts_encoded::<T>(m);
    let ops = (put_record::<T>(cf, key, m)->Ok_0).0;
    reveal_with_fuel(apply, 2);
    assert(apply(rows, ops) =~= rows.insert((cf, key), T::layout(m)));
}

/// The records in some rows.
pub open spec fn records<T: Codec>(found: Seq<(Seq<u8>, Seq<u8>)>) -> Result<
    Seq<T::M>,
    ErrorModel,
>
    decreases found.len(),
{
    if found.len() == 0 {
        Ok(Seq::empty())
    } else {
        match records::<T>(found.drop_last()) {
            Err(e) => Err(e),
            Ok(so_far) => match decoded::<T>(found.last().1) {
                Ok(m) => Ok(so_far.push(m)),
                Err(e) => Err(e),
            },
        }
    }
}

proof fn lemma_records_stop<T: Codec>(found: Seq<(Seq<u8>, Seq<u8>)>, n: int)
    requires
        0 <= n <= found.len(),
        records::<T>(found.take(n)) is Err,
    ensures
        records::<T>(found) == records::<T>(found.take(n)),
    decreases found.len(),
{
    if n == found.len() {
        assert(found.take(n) =~= found);
    } else {
        assert(found.drop_last().take(n) =~= found.take(n));
        lemma_records_stop::<T>(found.drop_last(), n);
    }
}

/// All rows whose keys begin with some bytes, in the order of their keys.
pub open spec fn prefix_walk(cf: Cf, prefix: Seq<u8>) -> WalkModel {
    WalkModel {
        cf,
        prefix,
        start: None,
        key_len: None,
        reverse: false,
        limit: usize::MAX as nat,
    }
}

/// The records whose keys begin with some bytes, in the order of their keys.
pub open spec fn records_under<T: Codec>(rows: Rows, cf: Cf, prefix: Seq<u8>) -> Result<
    Seq<T::M>,
    ErrorModel,
> {
    records::<T>(walk(rows, prefix_walk(cf, prefix)))
}

proof fn lemma_records<T: Codec>(found: Seq<(Seq<u8>, Seq<u8>)>, i: int)
    requires
        records::<T>(found) is Ok,
        0 <= i < found.len(),
    ensures
        records::<T>(found)->Ok_0.len() == found.len(),
        decoded::<T>(found[i].1) == Ok::<T::M, ErrorModel>(records::<T>(found)->Ok_0[i]),
    decreases found.len(),
{
    let front = found.drop_last();
    if front.len() > 0 {
        lemma_records::<T>(front, 0);
    } else {
        assert(records::<T>(front) == Ok::<Seq<T::M>, ErrorModel>(Seq::empty()));
    }
    if i < front.len() {
        lemma_records::<T>(front, i);
        assert(front[i] == found[i]);
    }
}

/// A record that was put is listed with those whose keys begin as its key does.
pub proof fn put_record_is_listed<T: Codec>(
    rows: Rows,
    cf: Cf,
    prefix: Seq<u8>,
    key: Seq<u8>,
    m: T::M,
    found: Seq<(Seq<u8>, Seq<u8>)>,
)
    requires
        T::fits(m),
        has_prefix(key, prefix),
        walked(apply(rows, (put_record::<T>(cf, key, m)->Ok_0).0), prefix_walk(cf, prefix), found),
        found.len() < usize::MAX,
        records::<T>(found) is Ok,
    ensures
        records::<T>(found)->Ok_0.contains(m),
{
    let ops = (put_record::<T>(cf, key, m)->Ok_0).0;
    reveal_with_fuel(apply, 2);
    let after = apply(rows, ops);
    assert(after =~= rows.insert((cf, key), T::layout(m)));
    let w = prefix_walk(cf, prefix);
    assert(on_walk(w, key));
    assert(after.contains_key((w.cf, key)));
    assert(reached(w, found, key));
    let i = choose|i: int| 0 <= i < found.len() && (#[trigger] found[i]).0 == key;
    lemma_records::<T>(found, i);
    decoded_inverts_encoded::<T>(m);
    assert(records::<T>(found)->Ok_0[i] == m);
}

/// Putting a record touches no other key.
pub proof fn put_leaves_other_keys<T: Codec>(
    rows: Rows,
    cf: Cf,
    key: Seq<u8>,
    m: T::M,
    other_cf: Cf,
    other_key: Seq<u8>,
)
    requires
        T::fits(m),
        cf != other_cf || key != other_key,
    ensures
        raw(apply(rows, (put_record::<T>(cf, key, m)->Ok_0).0), other_cf, other_key) == raw(
            rows,
            other_cf,
            other_key,
        ),
{
    reveal_with_fuel(apply, 2);
}

/// `list` holds the records of the keys `keys`: all keys that begin with some bytes, each once,
/// in ascending order.
pub open spec fn is_record_list<T: Codec>(
    rows: Rows,
    cf: Cf,
    prefix: Seq<u8>,
    keys: Seq<Seq<u8>>,
    list: Seq<T::M>,
) -> bool {
    &&& keys.len() == list.len()
    &&& forall|i: int, j: int|
        0 <= i < j < keys.len() ==> lex_less(#[trigger] keys[i], #[trigger] keys[j])
    &&& forall|i: int|
        0 <= i < keys.len() ==> {
            let key = #[trigger] keys[i];
            &&& has_prefix(key, prefix)
            &&& rows.contains_key((cf, key))
            &&& decoded::<T>(rows[(cf, key)]) == Ok::<T::M, ErrorModel>(list[i])
        }
    &&& forall|key: Seq<u8>| #[trigger]
        rows.contains_key((cf, key)) && has_prefix(key, prefix) ==> keys.contains(key)
}

/// A list of records is complete: every record whose key begins with the given bytes is there,
/// in the order of the keys, and nothing else. It comes whenever these records can be read.
pub proof fn record_list_is_complete<T: Codec>(rows: Rows, cf: Cf, prefix: Seq<u8>)
    requires
        rows.dom().finite(),
        rows.dom().len() < usize::MAX,
    ensures
        records_under::<T>(rows, cf, prefix) matches Ok(list) ==> exists|keys: Seq<Seq<u8>>|
            #[trigger] is_record_list::<T>(rows, cf, prefix, keys, list),
        records_under::<T>(rows, cf, prefix) is Ok <==> forall|key: Seq<u8>| #[trigger]
            rows.contains_key((cf, key)) && has_prefix(key, prefix) ==> decoded::<T>(
                rows[(cf, key)],
            ) is Ok,
{
    let w = prefix_walk(cf, prefix);
    finite_rows_have_walks(rows, w);
    let found = walk(rows, w);
    walk_is_within_rows(rows, w, found);
    lemma_records_readable::<T>(found);
    assert forall|key: Seq<u8>| #[trigger]
        rows.contains_key((cf, key)) && has_prefix(key, prefix) implies exists|i: int|
        0 <= i < found.len() && (#[trigger] found[i]).0 == key by {
        assert(on_walk(w, key));
        assert(reached(w, found, key));
    }
    if records::<T>(found) is Ok {
        let list = records::<T>(found)->Ok_0;
        if found.len() > 0 {
            lemma_records::<T>(found, 0);
        }
        let keys = Seq::new(found.len(), |i: int| found[i].0);
        assert forall|i: int, j: int| 0 <= i < j < keys.len() implies lex_less(
            #[trigger] keys[i],
            #[trigger] keys[j],
        ) by {
            assert(comes_before(false, found[i].0, found[j].0));
        }
        assert forall|i: int| 0 <= i < keys.len() implies {
            let key = #[trigger] keys[i];
            &&& has_prefix(key, prefix)
            &&& rows.contains_key((cf, key))
            &&& decoded::<T>(rows[(cf, key)]) == Ok::<T::M, ErrorModel>(list[i])
        } by {
            lemma_records::<T>(found, i);
            assert(on_walk(w, found[i].0));
        }
        assert forall|key: Seq<u8>| #[trigger]
            rows.contains_key((cf, key)) && has_prefix(key, prefix) implies keys.contains(key) by {
            let i = choose|i: int| 0 <= i < found.len() && (#[trigger] found[i]).0 == key;
            assert(keys[i] == key);
        }
        assert(is_record_list::<T>(rows, cf, prefix, keys, list));
        assert forall|key: Seq<u8>| #[trigger]
            rows.contains_key((cf, key)) && has_prefix(key, prefix) implies decoded::<T>(
            rows[(cf, key)],
        ) is Ok by {
            let i = choose|i: int| 0 <= i < found.len() && (#[trigger] found[i]).0 == key;
            assert(keys[i] == key);
        }
    } else {
        let i = choose|i: int| 0 <= i < found.len() && decoded::<T>((#[trigger] found[i]).1) is Err;
        assert(on_walk(w, found[i].0));
        assert(rows.contains_key((cf, found[i].0)));
    }
}

proof fn lemma_records_readable<T: Codec>(found: Seq<(Seq<u8>, Seq<u8>)>)
    ensures
        records::<T>(found) is Err ==> exists|i: int|
            0 <= i < found.len() && decoded::<T>((#[trigger] found[i]).1) is Err,
        records::<T>(found) is Ok ==> records::<T>(found)->Ok_0.len() == found.len(),
    decreases found.len(),
{
    if found.len() > 0 {
        let front = found.drop_last();
        lemma_records_readable::<T>(front);
        if records::<T>(front) is Err {
            let i = choose|i: int|
                0 <= i < front.len() && decoded::<T>((#[trigger] front[i]).1) is Err;
            assert(found[i] == front[i]);
        } else if records::<T>(found) is Err {
            assert(decoded::<T>(found[found.len() - 1].1) is Err);
        }
    }
}

/// The last row of a column family.
pub open spec fn last_walk(cf: Cf) -> WalkModel {
    WalkModel { cf, prefix: Seq::empty(), start: None, key_len: None, reverse: true, limit: 1 }
}

/// The last row of a column family, if it has any.
pub open spec fn last_row(rows: Rows, cf: Cf) -> Option<(Seq<u8>, Seq<u8>)> {
    let found = walk(rows, last_walk(cf));
    if found.len() > 0 {
        Some(found[0])
    } else {
        None
    }
}

/// The highest slot among the keys of a column family: that of the last row, unless the
/// key of the last row is no slot.
pub open spec fn last_slot(rows: Rows, cf: Cf) -> Option<u64> {
    match last_row(rows, cf) {
        Some(row) => if row.0.len() == 8 {
            Some(be_value(row.0) as u64)
        } else {
            None
        },
        None => None,
    }
}

/// Where every key is a slot, the last slot is the highest.
pub proof fn last_slot_is_highest(
    rows: Rows,
    cf: Cf,
    found: Seq<(Seq<u8>, Seq<u8>)>,
    slot: u64,
)
    requires
        walked(rows, last_walk(cf), found),
        forall|k: Seq<u8>| #[trigger] rows.contains_key((cf, k)) ==> k.len() == 8,
        rows.contains_key((cf, slot_bytes(slot))),
    ensures
        last_slot(rows, cf) is Some,
        last_slot(rows, cf)->0 >= slot,
        rows.contains_key((cf, slot_bytes(last_slot(rows, cf)->0))),
{
    lemma_walk(rows, last_walk(cf), found);
    let k = slot_bytes(slot);
    assert(on_walk(last_walk(cf), k)) by {
        assert(k.subrange(0, 0) =~= Seq::<u8>::empty());
    }
    assert(reached(last_walk(cf), found, k));
    if found.len() == 0 {
        assert(false);
    }
    let last = found[0].0;
    assert(rows.contains_key((cf, last)));
    lemma_be_bytes_of_value(last);
    lemma_byte_ranges();
    let top = be_value(last) as u64;
    assert(slot_bytes(top) == last);
    slot_keys_are_ordered(slot, top);
    if exists|i: int| 0 <= i < found.len() && (#[trigger] found[i]).0 == k {
        assert(last == k);
    }
}

/// The last row of a column family is there if any row is, and no key comes behind its key.
pub proof fn last_row_is_last(rows: Rows, cf: Cf)
    requires
        rows.dom().finite(),
    ensures
        last_row(rows, cf) is None <==> forall|k: Seq<u8>| !#[trigger] rows.contains_key((cf, k)),
        (last_row(rows, cf) matches Some(row) ==> {
            &&& rows.contains_key((cf, row.0))
            &&& rows[(cf, row.0)] == row.1
            &&& forall|k: Seq<u8>| #[trigger]
                rows.contains_key((cf, k)) ==> k == row.0 || lex_less(k, row.0)
        }),
{
    let w = last_walk(cf);
    finite_rows_have_walks(rows, w);
    let found = walk(rows, w);
    assert forall|k: Seq<u8>| #[trigger] rows.contains_key((cf, k)) implies found.len() > 0 && (k
        == found[0].0 || lex_less(k, found[0].0)) by {
        assert(k.subrange(0, 0) =~= Seq::<u8>::empty());
        assert(on_walk(w, k));
        assert(reached(w, found, k));
    }
    if found.len() > 0 {
        assert(rows.contains_key((cf, found[0].0)));
    }
}

/// Where every key is a slot, the highest slot is found, if there is any.
pub proof fn highest_slot_is_found(rows: Rows, cf: Cf)
    requires
        rows.dom().finite(),
        forall|k: Seq<u8>| #[trigger] rows.contains_key((cf, k)) ==> k.len() == 8,
    ensures
        last_slot(rows, cf) is None <==> forall|slot: u64|
            !rows.contains_key((cf, #[trigger] slot_bytes(slot))),
        (last_slot(rows, cf) matches Some(top) ==> {
            &&& rows.contains_key((cf, slot_bytes(top)))
            &&& forall|slot: u64|
                rows.contains_key((cf, #[trigger] slot_bytes(slot))) ==> slot <= top
        }),
{
    last_row_is_last(rows, cf);
    if last_row(rows, cf) is Some {
        let key = (last_row(rows, cf)->0).0;
        lemma_be_bytes_of_value(key);
        lemma_byte_ranges();
        let top = be_value(key) as u64;
        assert(slot_bytes(top) == key);
        assert forall|slot: u64|
            rows.contains_key((cf, #[trigger] slot_bytes(slot))) implies slot <= top by {
            slot_keys_are_ordered(slot, top);
        }
    }
}

/// A digest that was put is what is read, and no other row is touched.
pub proof fn put_digest_reads_back(
    rows: Rows,
    cf: Cf,
    key: Seq<u8>,
    d: Digest,
    damage: Seq<char>,
    other_cf: Cf,
    other_key: Seq<u8>,
)
    ensures
        ({
            let after = apply(rows, seq![Op::Put(cf, key, d@)]);
            &&& digest_row(after, cf, key, damage) == Ok::<Option<Digest>, ErrorModel>(Some(d))
            &&& cf != other_cf || key != other_key ==> raw(after, other_cf, other_key) == raw(
                rows,
                other_cf,
                other_key,
            )
        }),
{
    reveal_with_fuel(apply, 2);
    lemma_digest_of(d);
}

/// The digest in a row, if there is the row.
pub open spec fn digest_row(rows: Rows, cf: Cf, key: Seq<u8>, damage: Seq<char>) -> Result<
    Option<Digest>,
    ErrorModel,
> {
    match raw(rows, cf, key) {
        Some(bytes) => if bytes.len() == 64 {
            Ok(Some(digest_of(bytes)))
        } else {
            Err(ErrorModel::Corruption(damage))
        },
        None => Ok(None),
    }
}

/// The store.
pub struct Storage<D> {
    pub db: D,
}

impl<D: Database> Storage<D> {
    /// What the store holds.
    pub open spec fn rows(&self) -> Rows {
        self.db.rows()
    }

    /// Whether the database is known never to fail, and to hold finitely many rows: every
    /// walk over it then has an outcome.
    pub open spec fn reliable(&self) -> bool {
        self.db.reliable() && self.db.rows().dom().finite()
    }

    /// The store in a database.
    pub fn new(db: D) -> (r: Self)
        ensures
            r.db == db,
    {
        Storage { db }
    }

    /// Makes the changes of a batch, all of them or none.
    pub fn write(&mut self, batch: &StorageWriteBatch) -> (r: Result<(), StorageError>)
        ensures
            old(self).reliable() ==> final(self).reliable(),
            changed(
                old(self).reliable(),
                old(self).rows(),
                final(self).rows(),
                outcome(r),
                Ok((batch@, ())),
            ),
    {
        proof {
            if self.db.rows().dom().finite() {
                changes_keep_rows_finite(self.db.rows(), batch@);
            }
        }
        self.db.write(batch)
    }

    /// The value of a key in a column family.
    pub fn get_cf(&self, cf: Cf, key: &[u8]) -> (r: Result<Option<Vec<u8>>, StorageError>)
        ensures
            match r {
                Ok(Some(value)) => raw(self.rows(), cf, key@) == Some(value@),
                Ok(None) => raw(self.rows(), cf, key@) is None,
                Err(e) => !self.reliable() && error_model(e) == ErrorModel::Database,
            },
    {
        self.db.get(cf, key)
    }

    /// Gives a key in a column family a value.
    pub fn put_cf(&mut self, cf: Cf, key: &[u8], value: &[u8]) -> (r: Result<(), StorageError>)
        ensures
            old(self).reliable() ==> final(self).reliable(),
            changed(
                old(self).reliable(),
                old(self).rows(),
                final(self).rows(),
                outcome(r),
                Ok((seq![Op::Put(cf, key@, value@)], ())),
            ),
    {
        let mut batch = StorageWriteBatch::new();
        batch.put(cf, slice_to_vec(key), slice_to_vec(value));
        assert(batch@ =~= seq![Op::Put(cf, key@, value@)]);
        self.write(&batch)
    }

    /// Removes a key from a column family.
    pub fn delete_cf(&mut self, cf: Cf, key: &[u8]) -> (r: Result<(), StorageError>)
        ensures
            old(self).reliable() ==> final(self).reliable(),
            changed(
                old(self).reliable(),
                old(self).rows(),
                final(self).rows(),
                outcome(r),
                Ok((seq![Op::Delete(cf, key@)], ())),
            ),
    {
        let mut batch = StorageWriteBatch::new();
        batch.delete(cf, slice_to_vec(key));
        assert(batch@ =~= seq![Op::Delete(cf, key@)]);
        self.write(&batch)
    }

    /// The record of a key in a column family.
    pub fn get_record<T: Codec>(&self, cf: Cf, key: &[u8]) -> (r: Result<Option<T>, StorageError>)
        ensures
            agrees(self.reliable(), outcome(r), record::<T>(self.rows(), cf, key@)),
            r is Ok ==> r->Ok_0.well_formed(),
    {
        match self.get_cf(cf, key) {
            Ok(Some(bytes)) => match decode_record::<T>(bytes.as_slice()) {
                Ok(v) => Ok(Some(v)),
                Err(e) => Err(e),
            },
            Ok(None) => Ok(None),
            Err(e) => Err(e),
        }
    }

    /// Gives a key in a column family a record.
    pub fn put_record<T: Codec>(&mut self, cf: Cf, key: &[u8], value: &T) -> (r: Result<
        (),
        StorageError,
    >)
        ensures
            old(self).reliable() ==> final(self).reliable(),
            changed(
                old(self).reliable(),
                old(self).rows(),
                final(self).rows(),
                outcome(r),
                put_record::<T>(cf, key@, value.model()),
            ),
    {
        match encode_record(value) {
            Ok(bytes) => self.put_cf(cf, key, bytes.as_slice()),
            Err(e) => Err(e),
        }
    }

    /// The records whose keys begin with some bytes, in the order of their keys.
    pub fn get_records_under<T: Codec>(&self, cf: Cf, prefix: &[u8]) -> (r: Result<
        Vec<T>,
        StorageError,
    >)
        ensures
            agrees(self.reliable(), outcome(r), records_under::<T>(self.rows(), cf, prefix@)),
    {
        let w = Walk {
            cf,
            prefix: slice_to_vec(prefix),
            start: None,
            key_len: None,
            reverse: false,
            limit: usize::MAX,
        };
        let rows = match self.db.scan(&w) {
            Ok(rows) => rows,
            Err(e) => return Err(e),
        };
        let ghost found = views(rows@);
        proof {
            assert(w@ == prefix_walk(cf, prefix@));
            lemma_walk(self.rows(), w@, found);
        }
        let n: usize = rows.len();
        let mut results: Vec<T> = Vec::new();
        let mut i: usize = 0;
        assert(models(results@) =~= Seq::<T::M>::empty());
        assert(found.take(0) =~= Seq::<(Seq<u8>, Seq<u8>)>::empty());
        while i < n
            invariant
                i <= n == rows@.len(),
                found == views(rows@),
                found == walk(self.rows(), prefix_walk(cf, prefix@)),
                records::<T>(found.take(i as int)) == Ok::<Seq<T::M>, ErrorModel>(models(results@)),
            decreases n - i,
        {
            proof {
                assert(found.take(i + 1).drop_last() =~= found.take(i as int));
                assert(found.take(i + 1).last() == rows@[i as int]@);
            }
            match decode_record::<T>(rows[i].value.as_slice()) {
                Ok(v) => {
                    let ghost before = results@;
                    results.push(v);
                    assert(models(results@) =~= models(before).push(v.model()));
                },
                Err(e) => {
                    proof {
                        lemma_records_stop::<T>(found, i + 1);
                    }
                    return Err(e);
                },
            }
            i = i + 1;
        }
        assert(found.take(n as int) =~= found);
        Ok(results)
    }

    /// The last row of a column family.
    pub fn get_last_row(&self, cf: Cf) -> (r: Result<Option<Row>, StorageError>)
        ensures
            match r {
                Ok(Some(row)) => last_row(self.rows(), cf) == Some(row@),
                Ok(None) => last_row(self.rows(), cf) is None,
                Err(e) => !self.reliable() && error_model(e) == ErrorModel::Database,
            },
    {
        let w = Walk {
            cf,
            prefix: Vec::new(),
            start: None,
            key_len: None,
            reverse: true,
            limit: 1,
        };
        let mut rows = match self.db.scan(&w) {
            Ok(rows) => rows,
            Err(e) => return Err(e),
        };
        proof {
            assert(w.prefix@ =~= Seq::<u8>::empty());
            assert(w@ == last_walk(cf));
            lemma_walk(self.rows(), w@, views(rows@));
        }
        let ghost found = views(rows@);
        let r = rows.pop();
        proof {
            if found.len() > 0 {
                assert(found.len() == 1);
                assert(found[0] == r->0@);
            }
        }
        Ok(r)
    }

    /// The highest slot among the keys of a column family.
    pub fn get_last_slot(&self, cf: Cf) -> (r: Result<Option<u64>, StorageError>)
        ensures
            agrees(self.reliable(), outcome(r), Ok(last_slot(self.rows(), cf))),
    {
        match self.get_last_row(cf) {
            Ok(Some(row)) => {
                if row.key.len() != 8 {
                    return Ok(None);
                }
                assert(row.key@.subrange(0, 8) =~= row.key@);
                Ok(Some(u64_from_be(row.key.as_slice(), 0)))
            },
            Ok(None) => Ok(None),
            Err(e) => Err(e),
        }
    }

    /// The digest in a row.
    pub fn get_digest(&self, cf: Cf, key: &[u8], damage: &str) -> (r: Result<
        Option<Digest>,
        StorageError,
    >)
        ensures
            agrees(self.reliable(), outcome(r), digest_row(self.rows(), cf, key@, damage@)),
    {
        match self.get_cf(cf, key) {
            Ok(Some(bytes)) => {
                if bytes.len() != 64 {
                    return Err(corruption(damage));
                }
                let d = Digest::from_slice(bytes.as_slice(), 0);
                proof {
                    assert(bytes@.subrange(0, 64) =~= bytes@);
                    lemma_digest_of(d);
                }
                Ok(Some(d))
            },
            Ok(None) => Ok(None),
            Err(e) => Err(e),
        }
    }
}

} // verus!
