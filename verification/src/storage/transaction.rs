//! What became of transactions, and which transactions touch an address.

use crate::bytes::{
    be_value, lemma_be_bytes_of_value, lemma_byte_ranges, lemma_lex_append, lemma_lex_irreflexive,
    lemma_lex_transitive, lex_less, u32_from_be, u64_from_be,
};
use crate::codec::{Codec, Fault};
use crate::digest::{digest_of, lemma_digest_bytes, lemma_digest_of, Digest};
use crate::storage::cf::{CF_ADDRESS_SIGNATURES, CF_TRANSACTIONS};
use crate::storage::database::{
    comes_before, finite_rows_have_walks, has_prefix, lemma_walk, on_walk, reached, views, walk,
    walked, Database, Walk, WalkModel,
};
use crate::storage::error::StorageError;
use crate::storage::keys::{
    address_sig_bytes, address_sig_key, address_sig_keys_are_distinct,
    address_sig_keys_are_ordered, key_lengths,
};
use crate::storage::store::{
    agrees, changed, corruption, encode_record, error_model, outcome, put_record, put_then_get,
    raw, record, ErrorModel, Storage,
};
use crate::storage::write_batch::{apply, Op, Rows, StorageWriteBatch};
use vstd::prelude::*;
use vstd::slice::slice_to_vec;

verus! {

#[derive(Clone, Debug, PartialEq, Eq)]
pub enum TransactionStatus {
    Success,
    Failed(String),
}

/// What became of a transaction, and what it did to the balances of its accounts.
#[derive(Clone, Debug, PartialEq, Eq)]
pub struct TransactionStatusMeta {
    pub slot: u64,
    pub status: TransactionStatus,
    pub fee: u64,
    pub pre_balances: Vec<u64>,
    pub post_balances: Vec<u64>,
    pub compute_units_consumed: u64,
}

/// A status is laid out as an optional reason of failure.
impl Codec for TransactionStatus {
    type M = Option<Seq<char>>;

    open spec fn model(&self) -> Option<Seq<char>> {
        match self {
            TransactionStatus::Success => None,
            TransactionStatus::Failed(reason) => Some(reason@),
        }
    }

    open spec fn well_formed(&self) -> bool {
        true
    }

    open spec fn layout(m: Option<Seq<char>>) -> Seq<u8> {
        <Option<String> as Codec>::layout(m)
    }

    open spec fn fits(m: Option<Seq<char>>) -> bool {
        <Option<String> as Codec>::fits(m)
    }

    open spec fn fault(bytes: Seq<u8>) -> Fault {
        if bytes.len() > 0 && bytes[0] > 1 {
            Fault::Variant(bytes[0])
        } else {
            <Option<String> as Codec>::fault(bytes)
        }
    }

    proof fn prefix_free(a: Option<Seq<char>>, b: Option<Seq<char>>, s: Seq<u8>, t: Seq<u8>) {
        <Option<String> as Codec>::prefix_free(a, b, s, t);
    }

    fn encode(&self, out: &mut Vec<u8>) -> (ok: bool) {
        let ok: bool;
        match self {
            TransactionStatus::Success => {
                out.push(0);
                ok = true;
            },
            TransactionStatus::Failed(reason) => {
                out.push(1);
                ok = reason.encode(out);
            },
        }
        assert(ok ==> out@ =~= old(out)@ + Self::layout(self.model()));
        ok
    }

    fn decode<'a>(input: &'a [u8]) -> (r: Result<(Self, &'a [u8]), Fault>) {
        match <Option<String> as Codec>::decode(input) {
            Ok((Some(reason), rest)) => Ok((TransactionStatus::Failed(reason), rest)),
            Ok((None, rest)) => Ok((TransactionStatus::Success, rest)),
            Err(f) => {
                if input.len() > 0 && input[0] > 1 {
                    Err(Fault::Variant(input[0]))
                } else {
                    Err(f)
                }
            },
        }
    }
}

/// The fields of what became of a transaction in the order of its layout.
pub type TransactionStatusMetaFields = (u64, (TransactionStatus, (u64, (Vec<u64>, (Vec<u64>, u64)))));

impl Codec for TransactionStatusMeta {
    type M = <TransactionStatusMetaFields as Codec>::M;

    open spec fn model(&self) -> Self::M {
        (
            self.slot.model(),
            (
                self.status.model(),
                (
                    self.fee.model(),
                    (
                        self.pre_balances.model(),
                        (self.post_balances.model(), self.compute_units_consumed.model()),
                    ),
                ),
            ),
        )
    }

    open spec fn well_formed(&self) -> bool {
        true
    }

    open spec fn layout(m: Self::M) -> Seq<u8> {
        <TransactionStatusMetaFields as Codec>::layout(m)
    }

    open spec fn fits(m: Self::M) -> bool {
        <TransactionStatusMetaFields as Codec>::fits(m)
    }

    open spec fn fault(bytes: Seq<u8>) -> Fault {
        <TransactionStatusMetaFields as Codec>::fault(bytes)
    }

    proof fn prefix_free(a: Self::M, b: Self::M, s: Seq<u8>, t: Seq<u8>) {
        <TransactionStatusMetaFields as Codec>::prefix_free(a, b, s, t);
    }

    fn encode(&self, out: &mut Vec<u8>) -> (ok: bool) {
        let _ = self.slot.encode(out);
        let status_ok = self.status.encode(out);
        let _ = self.fee.encode(out);
        let pre_balances_ok = self.pre_balances.encode(out);
        let post_balances_ok = self.post_balances.encode(out);
        let _ = self.compute_units_consumed.encode(out);
        let ok = status_ok && pre_balances_ok && post_balances_ok;
        assert(ok ==> out@ =~= old(out)@ + Self::layout(self.model()));
        ok
    }

    fn decode<'a>(input: &'a [u8]) -> (r: Result<(Self, &'a [u8]), Fault>) {
        match <TransactionStatusMetaFields as Codec>::decode(input) {
            Ok((
                (slot, (status, (fee, (pre_balances, (post_balances, compute_units_consumed))))),
                rest,
            )) => Ok((
                TransactionStatusMeta {
                    slot,
                    status,
                    fee,
                    pre_balances,
                    post_balances,
                    compute_units_consumed,
                },
                rest,
            )),
            Err(f) => Err(f),
        }
    }
}

/// The transactions of an address, from the newest on.
pub open spec fn signature_walk(address: Digest, limit: nat) -> WalkModel {
    WalkModel {
        cf: CF_ADDRESS_SIGNATURES,
        prefix: address@,
        start: Some(address_sig_bytes(address, u64::MAX, u32::MAX)),
        key_len: None,
        reverse: true,
        limit,
    }
}

/// The transactions in some rows, up to the first row that is not one of a transaction.
pub open spec fn signatures_in(found: Seq<(Seq<u8>, Seq<u8>)>) -> Result<
    Seq<(u64, u32, Digest)>,
    ErrorModel,
>
    decreases found.len(),
{
    if found.len() == 0 {
        Ok(Seq::empty())
    } else {
        let (key, value) = found.last();
        match signatures_in(found.drop_last()) {
            Err(e) => Err(e),
            Ok(so_far) => if so_far.len() < found.len() - 1 || key.len() < 76 {
                Ok(so_far)
            } else if value.len() != 64 {
                Err(ErrorModel::Corruption("invalid tx hash in value"@))
            } else {
                Ok(
                    so_far.push(
                        (
                            be_value(key.subrange(64, 72)) as u64,
                            be_value(key.subrange(72, 76)) as u32,
                            digest_of(value),
                        ),
                    ),
                )
            },
        }
    }
}

/// The transactions of an address, newest first: the slot, the place in the slot, and the
/// hash of each. At most `limit` of them.
pub open spec fn signatures(rows: Rows, address: Digest, limit: nat) -> Result<
    Seq<(u64, u32, Digest)>,
    ErrorModel,
> {
    signatures_in(walk(rows, signature_walk(address, limit)))
}

proof fn lemma_signatures_stop(found: Seq<(Seq<u8>, Seq<u8>)>, n: int)
    requires
        0 <= n < found.len(),
        signatures_in(found.take(n)) is Ok,
        signatures_in(found.take(n))->Ok_0.len() == n,
        found[n].0.len() < 76 || found[n].1.len() != 64,
    ensures
        signatures_in(found) == signatures_in(found.take(n + 1)),
        signatures_in(found) is Ok ==> signatures_in(found)->Ok_0.len() < found.len(),
    decreases found.len(),
{
    assert(found.take(n + 1).drop_last() =~= found.take(n));
    if n == found.len() - 1 {
        assert(found.take(n + 1) =~= found);
    } else {
        let front = found.drop_last();
        assert(front.take(n) =~= found.take(n));
        assert(front.take(n + 1) =~= found.take(n + 1));
        lemma_signatures_stop(front, n);
    }
}

/// The change that stores what became of a transaction.
pub open spec fn status_ops(tx_hash: Digest, m: <TransactionStatusMeta as Codec>::M) -> Result<
    (Seq<Op>, ()),
    ErrorModel,
> {
    put_record::<TransactionStatusMeta>(CF_TRANSACTIONS, tx_hash@, m)
}

/// What became of a transaction.
pub open spec fn status_at(rows: Rows, tx_hash: Digest) -> Result<
    Option<<TransactionStatusMeta as Codec>::M>,
    ErrorModel,
> {
    record::<TransactionStatusMeta>(rows, CF_TRANSACTIONS, tx_hash@)
}

/// The change that puts a transaction on the list of an address.
pub open spec fn signature_op(address: Digest, slot: u64, tx_index: u32, tx_hash: Digest) -> Op {
    Op::Put(CF_ADDRESS_SIGNATURES, address_sig_bytes(address, slot, tx_index), tx_hash@)
}

impl<D: Database> Storage<D> {
    /// Stores what became of a transaction.
    pub fn put_transaction_status(&mut self, tx_hash: &Digest, meta: &TransactionStatusMeta) -> (r:
        Result<(), StorageError>)
        ensures
            old(self).reliable() ==> final(self).reliable(),
            changed(
                old(self).reliable(),
                old(self).rows(),
                final(self).rows(),
                outcome(r),
                status_ops(*tx_hash, meta.model()),
            ),
    {
        self.put_record(CF_TRANSACTIONS, tx_hash.as_bytes().as_slice(), meta)
    }

    /// The change that stores what became of a transaction, for the caller to make.
    pub fn prepare_transaction_status(tx_hash: &Digest, meta: &TransactionStatusMeta) -> (r: Result<
        StorageWriteBatch,
        StorageError,
    >)
        ensures
            match r {
                Ok(batch) => status_ops(*tx_hash, meta.model()) == Ok::<(Seq<Op>, ()), ErrorModel>(
                    (batch@, ()),
                ),
                Err(e) => status_ops(*tx_hash, meta.model()) == Err::<(Seq<Op>, ()), ErrorModel>(
                    error_model(e),
                ),
            },
    {
        let mut batch = StorageWriteBatch::new();
        match Self::append_transaction_status(&mut batch, tx_hash, meta) {
            Ok(()) => {
                let ghost ops = (status_ops(*tx_hash, meta.model())->Ok_0).0;
                assert(batch@ =~= ops);
                Ok(batch)
            },
            Err(e) => Err(e),
        }
    }

    /// Adds the change that stores what became of a transaction to a batch.
    pub fn append_transaction_status(
        batch: &mut StorageWriteBatch,
        tx_hash: &Digest,
        meta: &TransactionStatusMeta,
    ) -> (r: Result<(), StorageError>)
        ensures
            match r {
                Ok(()) => {
                    let ops = status_ops(*tx_hash, meta.model());
                    ops is Ok && final(batch)@ == old(batch)@ + (ops->Ok_0).0
                },
                Err(e) => {
                    &&& final(batch)@ == old(batch)@
                    &&& status_ops(*tx_hash, meta.model()) == Err::<(Seq<Op>, ()), ErrorModel>(
                        error_model(e),
                    )
                },
            },
    {
        let ghost before = batch@;
        match encode_record(meta) {
            Ok(value) => {
                batch.put(CF_TRANSACTIONS, slice_to_vec(tx_hash.as_bytes().as_slice()), value);
                assert(batch@ =~= before + seq![Op::Put(CF_TRANSACTIONS, tx_hash@, value@)]);
                Ok(())
            },
            Err(e) => Err(e),
        }
    }

    /// The change that puts a transaction on the list of an address, for the caller to
    /// make.
    pub fn prepare_address_signature(
        address: &Digest,
        slot: u64,
        tx_index: u32,
        tx_hash: &Digest,
    ) -> (r: StorageWriteBatch)
        ensures
            r@ == seq![signature_op(*address, slot, tx_index, *tx_hash)],
    {
        let mut batch = StorageWriteBatch::new();
        Self::append_address_signature(&mut batch, address, slot, tx_index, tx_hash);
        assert(batch@ =~= seq![signature_op(*address, slot, tx_index, *tx_hash)]);
        batch
    }

    /// Adds the change that puts a transaction on the list of an address to a batch.
    pub fn append_address_signature(
        batch: &mut StorageWriteBatch,
        address: &Digest,
        slot: u64,
        tx_index: u32,
        tx_hash: &Digest,
    )
        ensures
            final(batch)@ == old(batch)@.push(signature_op(*address, slot, tx_index, *tx_hash)),
    {
        let key = address_sig_key(address, slot, tx_index);
        batch.put(
            CF_ADDRESS_SIGNATURES,
            slice_to_vec(key.as_slice()),
            slice_to_vec(tx_hash.as_bytes().as_slice()),
        );
    }

    /// What became of a transaction.
    pub fn get_transaction_status(&self, tx_hash: &Digest) -> (r: Result<
        Option<TransactionStatusMeta>,
        StorageError,
    >)
        ensures
            agrees(
                self.reliable(),
                outcome(r),
                status_at(self.rows(), *tx_hash),
            ),
    {
        self.get_record::<TransactionStatusMeta>(CF_TRANSACTIONS, tx_hash.as_bytes().as_slice())
    }

    /// Puts a transaction on the list of an address.
    pub fn put_address_signature(
        &mut self,
        address: &Digest,
        slot: u64,
        tx_index: u32,
        tx_hash: &Digest,
    ) -> (r: Result<(), StorageError>)
        ensures
            old(self).reliable() ==> final(self).reliable(),
            changed(
                old(self).reliable(),
                old(self).rows(),
                final(self).rows(),
                outcome(r),
                Ok((seq![signature_op(*address, slot, tx_index, *tx_hash)], ())),
            ),
    {
        let key = address_sig_key(address, slot, tx_index);
        self.put_cf(CF_ADDRESS_SIGNATURES, key.as_slice(), tx_hash.as_bytes().as_slice())
    }

    /// The transactions of an address, newest first.
    pub fn get_signatures_for_address(&self, address: &Digest, limit: usize) -> (r: Result<
        Vec<(u64, u32, Digest)>,
        StorageError,
    >)
        ensures
            match r {
                Ok(found) => signatures(self.rows(), *address, limit as nat) == Ok::<
                    Seq<(u64, u32, Digest)>,
                    ErrorModel,
                >(found@),
                Err(e) => agrees(
                    self.reliable(),
                    Err(error_model(e)),
                    signatures(self.rows(), *address, limit as nat),
                ),
            },
    {
        let w = Walk {
            cf: CF_ADDRESS_SIGNATURES,
            prefix: slice_to_vec(address.as_bytes().as_slice()),
            start: Some(slice_to_vec(address_sig_key(address, u64::MAX, u32::MAX).as_slice())),
            key_len: None,
            reverse: true,
            limit,
        };
        let rows = match self.db.scan(&w) {
            Ok(rows) => rows,
            Err(e) => return Err(e),
        };
        let ghost found = views(rows@);
        proof {
            assert(w@ == signature_walk(*address, limit as nat));
            lemma_walk(self.rows(), w@, found);
        }
        let n: usize = rows.len();
        let mut results: Vec<(u64, u32, Digest)> = Vec::new();
        let mut i: usize = 0;
        assert(found.take(0) =~= Seq::<(Seq<u8>, Seq<u8>)>::empty());
        assert(results@ =~= Seq::<(u64, u32, Digest)>::empty());
        while i < n
            invariant
                i <= n == rows@.len(),
                found == views(rows@),
                found == walk(self.rows(), signature_walk(*address, limit as nat)),
                results@.len() == i,
                signatures_in(found.take(i as int)) == Ok::<Seq<(u64, u32, Digest)>, ErrorModel>(
                    results@,
                ),
            decreases n - i,
        {
            proof {
                assert(found.take(i + 1).drop_last() =~= found.take(i as int));
                assert(found.take(i + 1).last() == rows@[i as int]@);
                assert(found[i as int] == rows@[i as int]@);
            }
            if rows[i].key.len() < 76 {
                proof {
                    lemma_signatures_stop(found, i as int);
                }
                return Ok(results);
            }
            let slot: u64 = u64_from_be(rows[i].key.as_slice(), 64);
            let tx_index: u32 = u32_from_be(rows[i].key.as_slice(), 72);
            if rows[i].value.len() != 64 {
                proof {
                    lemma_signatures_stop(found, i as int);
                }
                return Err(corruption("invalid tx hash in value"));
            }
            let tx_hash = Digest::from_slice(rows[i].value.as_slice(), 0);
            proof {
                assert(rows@[i as int].value@.subrange(0, 64) =~= rows@[i as int].value@);
                lemma_digest_of(tx_hash);
            }
            results.push((slot, tx_index, tx_hash));
            i = i + 1;
        }
        assert(found.take(n as int) =~= found);
        Ok(results)
    }
}

proof fn lemma_signature(found: Seq<(Seq<u8>, Seq<u8>)>, i: int)
    requires
        signatures_in(found) is Ok,
        0 <= i < signatures_in(found)->Ok_0.len(),
    ensures
        signatures_in(found)->Ok_0.len() <= found.len(),
        found[i].0.len() >= 76,
        signatures_in(found)->Ok_0[i] == (
            be_value(found[i].0.subrange(64, 72)) as u64,
            be_value(found[i].0.subrange(72, 76)) as u32,
            digest_of(found[i].1),
        ),
    decreases found.len(),
{
    if found.len() > 0 {
        let front = found.drop_last();
        let so_far = signatures_in(front)->Ok_0;
        if so_far.len() > 0 {
            lemma_signature(front, 0);
        }
        if i < so_far.len() {
            lemma_signature(front, i);
            assert(front[i] == found[i]);
            assert(signatures_in(found)->Ok_0[i] == so_far[i]);
        }
    }
}

/// A key of the list of an address starts with the key of its slot and place.
proof fn lemma_signature_key(address: Digest, k: Seq<u8>)
    requires
        k.len() >= 76,
        has_prefix(k, address@),
    ensures
        k.subrange(0, 76) == address_sig_bytes(
            address,
            be_value(k.subrange(64, 72)) as u64,
            be_value(k.subrange(72, 76)) as u32,
        ),
{
    lemma_be_bytes_of_value(k.subrange(64, 72));
    lemma_be_bytes_of_value(k.subrange(72, 76));
    lemma_byte_ranges();
    assert(k.subrange(0, 64) == address@);
    assert(k.subrange(0, 76) =~= k.subrange(0, 64) + k.subrange(64, 72) + k.subrange(72, 76));
}

/// The transactions of an address are given by slot and place in it, descending.
pub proof fn signatures_are_newest_first(
    rows: Rows,
    address: Digest,
    found: Seq<(Seq<u8>, Seq<u8>)>,
    limit: nat,
    i: int,
    j: int,
)
    requires
        walked(rows, signature_walk(address, limit), found),
        signatures_in(found) is Ok,
        0 <= i < j < signatures_in(found)->Ok_0.len(),
    ensures
        ({
            let a = signatures_in(found)->Ok_0[i];
            let b = signatures_in(found)->Ok_0[j];
            a.0 > b.0 || (a.0 == b.0 && a.1 >= b.1)
        }),
{
    lemma_signature(found, i);
    lemma_signature(found, j);
    let a = signatures_in(found)->Ok_0[i];
    let b = signatures_in(found)->Ok_0[j];
    let x = found[i].0;
    let y = found[j].0;
    assert(has_prefix(x, address@) && has_prefix(y, address@));
    assert(comes_before(true, x, y));
    lemma_signature_key(address, x);
    lemma_signature_key(address, y);
    let p = x.subrange(0, 76);
    let q = y.subrange(0, 76);
    address_sig_keys_are_ordered(address, a.0, a.1, b.0, b.1);
    if lex_less(p, q) {
        assert(x =~= p + x.subrange(76, x.len() as int));
        assert(y =~= q + y.subrange(76, y.len() as int));
        lemma_lex_irreflexive(p);
        lemma_lex_append(p, q, x.subrange(76, x.len() as int), y.subrange(76, y.len() as int));
        lemma_lex_transitive(x, y, x);
        lemma_lex_irreflexive(x);
    }
}

/// A transaction that was put on the list of an address is listed, unless the list is cut
/// short before it by the limit or by a row that is not one of a transaction.
pub proof fn put_signature_is_listed(
    rows: Rows,
    address: Digest,
    slot: u64,
    tx_index: u32,
    tx_hash: Digest,
    found: Seq<(Seq<u8>, Seq<u8>)>,
    limit: nat,
)
    requires
        walked(
            rows.insert(
                (CF_ADDRESS_SIGNATURES, address_sig_bytes(address, slot, tx_index)),
                tx_hash@,
            ),
            signature_walk(address, limit),
            found,
        ),
        found.len() < limit,
        signatures_in(found) is Ok,
        signatures_in(found)->Ok_0.len() == found.len(),
    ensures
        signatures_in(found)->Ok_0.contains((slot, tx_index, tx_hash)),
{
    let key = address_sig_bytes(address, slot, tx_index);
    let after = rows.insert((CF_ADDRESS_SIGNATURES, key), tx_hash@);
    let w = signature_walk(address, limit);
    key_lengths(address, address, slot, tx_index);
    key_lengths(address, address, u64::MAX, u32::MAX);
    assert(key.subrange(0, 64) =~= address@);
    address_sig_keys_are_ordered(address, u64::MAX, u32::MAX, slot, tx_index);
    assert(on_walk(w, key));
    assert(after.contains_key((w.cf, key)));
    assert(reached(w, found, key));
    let i = choose|i: int| 0 <= i < found.len() && (#[trigger] found[i]).0 == key;
    lemma_signature(found, i);
    lemma_signature_key(address, key);
    assert(key.subrange(0, 76) =~= key);
    let r = signatures_in(found)->Ok_0[i];
    address_sig_keys_are_distinct(address, slot, tx_index, address, r.0, r.1);
    lemma_digest_of(tx_hash);
    assert(r == (slot, tx_index, tx_hash));
}

/// What was stored of a transaction is what is read of it; what became of other transactions,
/// and the list of every address, stay.
pub proof fn stored_status_reads_back(
    rows: Rows,
    tx_hash: Digest,
    m: <TransactionStatusMeta as Codec>::M,
    other: Digest,
    address: Digest,
    slot: u64,
    tx_index: u32,
)
    requires
        TransactionStatusMeta::fits(m),
    ensures
        ({
            let ops = status_ops(tx_hash, m);
            let after = apply(rows, (ops->Ok_0).0);
            &&& ops is Ok
            &&& status_at(after, tx_hash) == Ok::<
                Option<<TransactionStatusMeta as Codec>::M>,
                ErrorModel,
            >(Some(m))
            &&& other != tx_hash ==> status_at(after, other) == status_at(rows, other)
            &&& listed_at(after, address, slot, tx_index) == listed_at(
                rows,
                address,
                slot,
                tx_index,
            )
        }),
{
    put_then_get::<TransactionStatusMeta>(rows, CF_TRANSACTIONS, tx_hash@, m);
    lemma_digest_of(tx_hash);
    lemma_digest_of(other);
    reveal_with_fuel(apply, 2);
}

/// The bytes on the list of an address at a place.
pub open spec fn listed_at(rows: Rows, address: Digest, slot: u64, tx_index: u32) -> Option<
    Seq<u8>,
> {
    raw(rows, CF_ADDRESS_SIGNATURES, address_sig_bytes(address, slot, tx_index))
}

/// Putting a transaction on the list of an address puts its hash at its slot and place there;
/// every other entry, of this address and of others, stays, and so does what became of each
/// transaction.
pub proof fn put_signature_touches_one_entry(
    rows: Rows,
    address: Digest,
    slot: u64,
    tx_index: u32,
    tx_hash: Digest,
    a: Digest,
    s: u64,
    i: u32,
    other: Digest,
)
    ensures
        ({
            let after = apply(rows, seq![signature_op(address, slot, tx_index, tx_hash)]);
            &&& listed_at(after, address, slot, tx_index) == Some(tx_hash@)
            &&& a != address || s != slot || i != tx_index ==> listed_at(after, a, s, i)
                == listed_at(rows, a, s, i)
            &&& status_at(after, other) == status_at(rows, other)
        }),
{
    reveal_with_fuel(apply, 2);
    address_sig_keys_are_distinct(address, slot, tx_index, a, s, i);
}

/// `list` gives the newest transactions of an address: at most `limit`, by slot and place in it,
/// descending, and none is passed over for an older one.
pub open spec fn is_signature_list(
    rows: Rows,
    address: Digest,
    limit: nat,
    list: Seq<(u64, u32, Digest)>,
) -> bool {
    &&& list.len() <= limit
    &&& forall|i: int, j: int|
        0 <= i < j < list.len() ==> newer(#[trigger] list[i], #[trigger] list[j])
    &&& forall|i: int|
        0 <= i < list.len() ==> {
            let (slot, tx_index, tx_hash) = #[trigger] list[i];
            listed_at(rows, address, slot, tx_index) == Some(tx_hash@)
        }
    &&& forall|slot: u64, tx_index: u32|
        (#[trigger] listed_at(rows, address, slot, tx_index)) matches Some(bytes) ==> {
            ||| list.contains((slot, tx_index, digest_of(bytes)))
            ||| list.len() == limit && forall|i: int|
                0 <= i < list.len() ==> newer(
                    #[trigger] list[i],
                    (slot, tx_index, digest_of(bytes)),
                )
        }
}

/// One transaction is of a later slot than another, or of a later place in the same slot.
pub open spec fn newer(a: (u64, u32, Digest), b: (u64, u32, Digest)) -> bool {
    a.0 > b.0 || (a.0 == b.0 && a.1 > b.1)
}

/// The list of the transactions of an address is complete: every transaction that was put on it
/// is there, newest first, until the limit is reached. It comes whenever its hashes are whole.
pub proof fn signatures_are_complete(rows: Rows, address: Digest, limit: nat)
    requires
        rows.dom().finite(),
        forall|k: Seq<u8>| #[trigger]
            rows.contains_key((CF_ADDRESS_SIGNATURES, k)) ==> k.len() == 76,
    ensures
        signatures(rows, address, limit) matches Ok(list) ==> is_signature_list(
            rows,
            address,
            limit,
            list,
        ),
        (forall|slot: u64, tx_index: u32|
            (#[trigger] listed_at(rows, address, slot, tx_index)) matches Some(bytes)
                ==> bytes.len() == 64) ==> signatures(rows, address, limit) is Ok,
{
    let w = signature_walk(address, limit);
    finite_rows_have_walks(rows, w);
    let found = walk(rows, w);
    assert forall|n: int| 0 <= n < found.len() implies (#[trigger] found[n]).0.len() == 76 by {
        assert(rows.contains_key((CF_ADDRESS_SIGNATURES, found[n].0)));
    }
    lemma_signatures_whole(found);
    assert forall|n: int| 0 <= n < found.len() implies {
        let slot = be_value((#[trigger] found[n]).0.subrange(64, 72)) as u64;
        let tx_index = be_value(found[n].0.subrange(72, 76)) as u32;
        &&& address_sig_bytes(address, slot, tx_index) == found[n].0
        &&& listed_at(rows, address, slot, tx_index) == Some(found[n].1)
    } by {
        assert(on_walk(w, found[n].0));
        lemma_signature_key(address, found[n].0);
        assert(found[n].0.subrange(0, 76) =~= found[n].0);
        assert(rows.contains_key((CF_ADDRESS_SIGNATURES, found[n].0)));
    }
    if signatures(rows, address, limit) is Ok {
        let list = signatures(rows, address, limit)->Ok_0;
        assert forall|n: int| 0 <= n < list.len() implies {
            let (slot, tx_index, tx_hash) = #[trigger] list[n];
            &&& address_sig_bytes(address, slot, tx_index) == found[n].0
            &&& tx_hash == digest_of(found[n].1)
            &&& tx_hash@ == found[n].1
            &&& listed_at(rows, address, slot, tx_index) == Some(tx_hash@)
        } by {
            lemma_signature(found, n);
            lemma_digest_bytes(found[n].1);
        }
        assert forall|i: int, j: int| 0 <= i < j < list.len() implies newer(
            #[trigger] list[i],
            #[trigger] list[j],
        ) by {
            assert(comes_before(true, found[i].0, found[j].0));
            address_sig_keys_are_ordered(address, list[j].0, list[j].1, list[i].0, list[i].1);
        }
        assert forall|slot: u64, tx_index: u32|
            (#[trigger] listed_at(rows, address, slot, tx_index)) is Some implies {
            let bytes = listed_at(rows, address, slot, tx_index)->0;
            ||| list.contains((slot, tx_index, digest_of(bytes)))
            ||| list.len() == limit && forall|n: int|
                0 <= n < list.len() ==> newer(
                    #[trigger] list[n],
                    (slot, tx_index, digest_of(bytes)),
                )
        } by {
            let k = address_sig_bytes(address, slot, tx_index);
            let bytes = listed_at(rows, address, slot, tx_index)->0;
            assert(rows.contains_key((CF_ADDRESS_SIGNATURES, k)));
            assert(k.subrange(0, 64) =~= address@);
            address_sig_keys_are_ordered(address, u64::MAX, u32::MAX, slot, tx_index);
            assert(on_walk(w, k));
            assert(reached(w, found, k));
            if exists|n: int| 0 <= n < found.len() && (#[trigger] found[n]).0 == k {
                let n = choose|n: int| 0 <= n < found.len() && (#[trigger] found[n]).0 == k;
                address_sig_keys_are_distinct(
                    address,
                    slot,
                    tx_index,
                    address,
                    list[n].0,
                    list[n].1,
                );
                assert(list[n] == (slot, tx_index, digest_of(bytes)));
            } else {
                assert forall|n: int| 0 <= n < list.len() implies newer(
                    #[trigger] list[n],
                    (slot, tx_index, digest_of(bytes)),
                ) by {
                    let last = list.len() - 1;
                    assert(address_sig_bytes(address, list[last].0, list[last].1)
                        == found[last].0);
                    address_sig_keys_are_ordered(
                        address,
                        slot,
                        tx_index,
                        list[last].0,
                        list[last].1,
                    );
                    if n < last {
                        assert(newer(list[n], list[last]));
                    }
                }
            }
        }
    } else {
        let n = choose|n: int| 0 <= n < found.len() && (#[trigger] found[n]).1.len() != 64;
        let slot = be_value(found[n].0.subrange(64, 72)) as u64;
        let tx_index = be_value(found[n].0.subrange(72, 76)) as u32;
        assert(listed_at(rows, address, slot, tx_index) == Some(found[n].1));
    }
}

proof fn lemma_signatures_whole(found: Seq<(Seq<u8>, Seq<u8>)>)
    requires
        forall|i: int| 0 <= i < found.len() ==> (#[trigger] found[i]).0.len() == 76,
    ensures
        signatures_in(found) is Err ==> exists|i: int|
            0 <= i < found.len() && (#[trigger] found[i]).1.len() != 64,
        signatures_in(found) is Ok ==> signatures_in(found)->Ok_0.len() == found.len() && forall|
            i: int,
        |
            0 <= i < found.len() ==> (#[trigger] found[i]).1.len() == 64,
    decreases found.len(),
{
    if found.len() > 0 {
        let front = found.drop_last();
        assert forall|i: int| 0 <= i < front.len() implies (#[trigger] front[i]).0.len() == 76 by {
            assert(front[i] == found[i]);
        }
        lemma_signatures_whole(front);
        if signatures_in(front) is Err {
            let i = choose|i: int| 0 <= i < front.len() && (#[trigger] front[i]).1.len() != 64;
            assert(found[i] == front[i]);
        } else if signatures_in(found) is Err {
            assert(found[found.len() - 1].1.len() != 64);
        } else {
            assert forall|i: int| 0 <= i < found.len() implies (#[trigger] found[i]).1.len()
                == 64 by {
                if i < front.len() {
                    assert(front[i] == found[i]);
                }
            }
        }
    }
}

/// A transaction status meta is written field by field, in this order.
pub proof fn transaction_status_meta_is_written_in_order(x: TransactionStatusMeta)
    ensures
        <TransactionStatusMeta as Codec>::layout(x.model()) == <u64 as Codec>::layout(x.slot.model())
            + <TransactionStatus as Codec>::layout(x.status.model())
            + <u64 as Codec>::layout(x.fee.model())
            + <Vec<u64> as Codec>::layout(x.pre_balances.model())
            + <Vec<u64> as Codec>::layout(x.post_balances.model())
            + <u64 as Codec>::layout(x.compute_units_consumed.model()),
{
}

/// A status is a zero, or a one and the reason of the failure.
pub proof fn statuses_are_numbered(x: TransactionStatus)
    ensures
        TransactionStatus::layout(x.model()) == match x {
            TransactionStatus::Success => seq![0u8],
            TransactionStatus::Failed(reason) => seq![1u8] + String::layout(reason@),
        },
{
}

} // verus!
