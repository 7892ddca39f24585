//! Snapshots of all accounts, and how a node starts from one.

use crate::bytes::{le_bytes, lemma_lex_irreflexive, starts_with};
use crate::codec::{models, Codec, Fault};
use crate::digest::{lemma_digest_of, Digest};
use crate::ledger::Account;
use crate::storage::account_index::{
    account_at, account_list_is_complete, account_list_is_short, account_ops, account_write,
    accounts, is_account_list, latest_account, lemma_account_ops, AccountModel,
};
use crate::storage::bank::{bank_hash_at, is_root};
use crate::storage::cf::{
    Cf, CF_ACCOUNTS, CF_ACCOUNT_INDEX, CF_BANK_HASHES, CF_DEFAULT, CF_ROOTS, CF_SNAPSHOTS,
};
use crate::storage::database::Database;
use crate::storage::error::StorageError;
use crate::storage::keys::{slot_bytes, slot_key};
use crate::storage::owner_index::old_owner;
use crate::storage::snapshot::{snapshot_at, SnapshotManifest};
use crate::storage::store::{
    agrees, changed, decode_record, decoded, decoded_inverts_encoded, digest_row,
    encode_record, encoded, error_model, outcome, put_record, put_then_get, raw, record, ErrorModel, Storage,
};
use crate::storage::write_batch::{
    apply, lemma_apply_concat, lemma_apply_delete, lemma_apply_put, lemma_apply_untouched,
    Op, Rows, StorageWriteBatch,
};
use crate::text::{decimal, push_str, push_u64, string};
use vstd::prelude::*;
use vstd::slice::{slice_subrange, slice_to_vec};

verus! {

/// The key that is there while a snapshot is being restored: `snapshot_restore_in_progress`.
pub const SNAPSHOT_RESTORE_MARKER: [u8; 28] = [
    115, 110, 97, 112, 115, 104, 111, 116, 95, 114, 101, 115, 116, 111, 114, 101, 95, 105, 110, 95,
    112, 114, 111, 103, 114, 101, 115, 115,
];

/// The largest snapshot that is read, in bytes.
pub const MAX_SNAPSHOT_SIZE: u64 = 10 * 1024 * 1024 * 1024;

/// All that a node needs to start from a slot.
#[derive(Clone, Debug, PartialEq, Eq)]
pub struct SnapshotArchive {
    pub manifest: SnapshotManifest,
    pub accounts: Vec<(Digest, Account)>,
}

/// The fields of an archive in the order of its layout.
pub type SnapshotArchiveFields = (SnapshotManifest, Vec<(Digest, Account)>);

impl Codec for SnapshotArchive {
    type M = <SnapshotArchiveFields as Codec>::M;

    open spec fn model(&self) -> Self::M {
        (self.manifest.model(), self.accounts.model())
    }

    open spec fn well_formed(&self) -> bool {
        true
    }

    open spec fn layout(m: Self::M) -> Seq<u8> {
        <SnapshotArchiveFields as Codec>::layout(m)
    }

    open spec fn fits(m: Self::M) -> bool {
        <SnapshotArchiveFields as Codec>::fits(m)
    }

    open spec fn fault(bytes: Seq<u8>) -> Fault {
        <SnapshotArchiveFields as Codec>::fault(bytes)
    }

    proof fn prefix_free(a: Self::M, b: Self::M, s: Seq<u8>, t: Seq<u8>) {
        <SnapshotArchiveFields as Codec>::prefix_free(a, b, s, t);
    }

    fn encode(&self, out: &mut Vec<u8>) -> (ok: bool) {
        let _ = self.manifest.encode(out);
        let accounts_ok = self.accounts.encode(out);
        assert(accounts_ok ==> out@ =~= old(out)@ + Self::layout(self.model()));
        accounts_ok
    }

    fn decode<'a>(input: &'a [u8]) -> (r: Result<(Self, &'a [u8]), Fault>) {
        match <SnapshotArchiveFields as Codec>::decode(input) {
            Ok(((manifest, accounts), rest)) => Ok((SnapshotArchive { manifest, accounts }, rest)),
            Err(f) => Err(f),
        }
    }
}

pub type ManifestModel = <SnapshotManifest as Codec>::M;

pub type ArchiveModel = (ManifestModel, Seq<(Digest, AccountModel)>);

/// The slot of a snapshot.
pub open spec fn snapshot_slot(m: ManifestModel) -> u64 {
    m.0
}

/// The bank hash of a snapshot.
pub open spec fn snapshot_bank_hash(m: ManifestModel) -> Digest {
    (m.1).0
}

/// A snapshot of the latest versions of all accounts. Its manifest is stored.
pub open spec fn created(rows: Rows, slot: u64, bank_hash: Digest, timestamp: i64) -> Result<
    (Seq<Op>, ArchiveModel),
    ErrorModel,
> {
    match accounts(rows, None) {
        Ok(all) => {
            let manifest: ManifestModel = (slot, (bank_hash, (all.len() as u64, timestamp)));
            match put_record::<SnapshotManifest>(CF_SNAPSHOTS, slot_bytes(slot), manifest) {
                Ok((ops, _)) => Ok((ops, (manifest, all))),
                Err(e) => Err(e),
            }
        },
        Err(e) => Err(e),
    }
}

/// The changes that write accounts as of a slot.
pub open spec fn accounts_write(rows: Rows, slot: u64, all: Seq<(Digest, AccountModel)>) -> Result<
    Seq<Op>,
    ErrorModel,
>
    decreases all.len(),
{
    if all.len() == 0 {
        Ok(Seq::empty())
    } else {
        match accounts_write(rows, slot, all.drop_last()) {
            Err(e) => Err(e),
            Ok(ops) => match account_write(rows, all.last().0, slot, all.last().1) {
                Ok(more) => Ok(ops + more),
                Err(e) => Err(e),
            },
        }
    }
}

/// The changes that write accounts and the manifest of a snapshot.
pub open spec fn bootstrap_ops(rows: Rows, archive: ArchiveModel) -> Result<Seq<Op>, ErrorModel> {
    let slot = snapshot_slot(archive.0);
    match (accounts_write(rows, slot, archive.1), encoded::<SnapshotManifest>(archive.0)) {
        (Ok(ops), Ok(bytes)) => Ok(ops.push(Op::Put(CF_SNAPSHOTS, slot_bytes(slot), bytes))),
        (Err(e), _) => Err(e),
        (_, Err(e)) => Err(e),
    }
}

/// The change that says that a restore has begun.
pub open spec fn begin_restore(slot: u64) -> Seq<Op> {
    seq![Op::Put(CF_DEFAULT, SNAPSHOT_RESTORE_MARKER@, le_bytes(slot as nat, 8))]
}

/// A restore has begun and is not over.
pub open spec fn restore_begun(rows: Rows) -> bool {
    raw(rows, CF_DEFAULT, SNAPSHOT_RESTORE_MARKER@) is Some
}

/// The change after which no restore has begun.
pub open spec fn end_restore(rows: Rows) -> Seq<Op> {
    if restore_begun(rows) {
        seq![Op::Delete(CF_DEFAULT, SNAPSHOT_RESTORE_MARKER@)]
    } else {
        Seq::empty()
    }
}

/// The changes of a restore: accounts, manifest, root and bank hash, and that it is over.
pub open spec fn restore_ops(rows: Rows, archive: ArchiveModel) -> Result<Seq<Op>, ErrorModel> {
    let slot = snapshot_slot(archive.0);
    match bootstrap_ops(rows, archive) {
        Ok(ops) => Ok(
            ops + seq![
                Op::Put(CF_ROOTS, slot_bytes(slot), Seq::<u8>::empty()),
                Op::Put(CF_BANK_HASHES, slot_bytes(slot), snapshot_bank_hash(archive.0)@),
                Op::Delete(CF_DEFAULT, SNAPSHOT_RESTORE_MARKER@),
            ],
        ),
        Err(e) => Err(e),
    }
}

pub open spec fn with_unit(ops: Result<Seq<Op>, ErrorModel>) -> Result<(Seq<Op>, ()), ErrorModel> {
    match ops {
        Ok(ops) => Ok((ops, ())),
        Err(e) => Err(e),
    }
}

/// Takes a snapshot of the latest versions of all accounts, and stores its manifest.
pub fn create_snapshot<D: Database>(
    storage: &mut Storage<D>,
    slot: u64,
    bank_hash: Digest,
    timestamp: i64,
) -> (r: Result<SnapshotArchive, StorageError>)
    ensures
        old(storage).reliable() ==> final(storage).reliable(),
        changed(
            old(storage).reliable(),
            old(storage).rows(),
            final(storage).rows(),
            outcome(r),
            created(old(storage).rows(), slot, bank_hash, timestamp),
        ),
{
    let accounts = match storage.get_all_accounts() {
        Ok(accounts) => accounts,
        Err(e) => return Err(e),
    };
    let count: usize = accounts.len();
    let manifest = SnapshotManifest { slot, bank_hash, account_count: count as u64, timestamp };
    match storage.put_snapshot(&manifest) {
        Ok(()) => Ok(SnapshotArchive { manifest, accounts }),
        Err(e) => Err(e),
    }
}

/// The bytes of a snapshot, to be written to a file.
pub fn archive_bytes(archive: &SnapshotArchive) -> (r: Result<Vec<u8>, StorageError>)
    ensures
        match r {
            Ok(bytes) => encoded::<SnapshotArchive>(archive.model()) == Ok::<
                Seq<u8>,
                ErrorModel,
            >(bytes@),
            Err(e) => encoded::<SnapshotArchive>(archive.model()) == Err::<Seq<u8>, ErrorModel>(
                error_model(e),
            ),
        },
{
    encode_record(archive)
}

/// What is said of a snapshot that is too large.
pub open spec fn too_large_text(size: u64) -> Seq<char> {
    "snapshot file too large: "@ + decimal(size as nat) + " bytes exceeds "@ + decimal(
        MAX_SNAPSHOT_SIZE as nat,
    ) + " byte limit"@
}

/// Refuses a file that is larger than any snapshot that is read.
pub fn check_snapshot_size(file_size: u64) -> (r: Result<(), StorageError>)
    ensures
        outcome(r) == if file_size > MAX_SNAPSHOT_SIZE {
            Err::<(), ErrorModel>(ErrorModel::Corruption(too_large_text(file_size)))
        } else {
            Ok(())
        },
        r is Err <==> file_size > 10_737_418_240,
{
    if file_size > MAX_SNAPSHOT_SIZE {
        let mut text = string("snapshot file too large: ");
        push_u64(&mut text, file_size);
        push_str(&mut text, " bytes exceeds ");
        push_u64(&mut text, MAX_SNAPSHOT_SIZE);
        push_str(&mut text, " byte limit");
        return Err(StorageError::Corruption(text));
    }
    Ok(())
}

/// The snapshot in the bytes of a file.
pub fn archive_from_bytes(bytes: &[u8]) -> (r: Result<SnapshotArchive, StorageError>)
    ensures
        outcome(r) == decoded::<SnapshotArchive>(bytes@),
{
    decode_record::<SnapshotArchive>(bytes)
}

/// Adds the changes that write the accounts of a snapshot and its manifest.
fn stage_bootstrap<D: Database>(
    storage: &Storage<D>,
    batch: &mut StorageWriteBatch,
    archive: &SnapshotArchive,
) -> (r: Result<(), StorageError>)
    ensures
        match r {
            Ok(()) => {
                let ops = bootstrap_ops(storage.rows(), archive.model());
                ops is Ok && final(batch)@ == old(batch)@ + ops->Ok_0
            },
            Err(e) => agrees(
                storage.reliable(),
                Err(error_model(e)),
                bootstrap_ops(storage.rows(), archive.model()),
            ),
        },
{
    let slot: u64 = archive.manifest.slot;
    let ghost before = batch@;
    let ghost all = archive.model().1;
    let n: usize = archive.accounts.len();
    let mut i: usize = 0;
    assert(all.take(0) =~= Seq::<(Digest, AccountModel)>::empty());
    assert(batch@ =~= before + Seq::<Op>::empty());
    while i < n
        invariant
            i <= n == archive.accounts@.len(),
            all == models(archive.accounts@),
            all == archive.model().1,
            slot == snapshot_slot(archive.model().0),
            accounts_write(storage.rows(), slot, all.take(i as int)) is Ok,
            batch@ == before + accounts_write(storage.rows(), slot, all.take(i as int))->Ok_0,
        decreases n - i,
    {
        let ghost so_far = accounts_write(storage.rows(), slot, all.take(i as int))->Ok_0;
        let address = archive.accounts[i].0;
        proof {
            assert(all.take(i + 1).drop_last() =~= all.take(i as int));
            assert(all.take(i + 1).last() == archive.accounts@[i as int].model());
        }
        match storage.append_account_write(batch, &address, slot, &archive.accounts[i].1) {
            Ok(()) => {},
            Err(e) => {
                proof {
                    if account_write(storage.rows(), address, slot, all[i as int].1) is Err {
                        lemma_accounts_stop(storage.rows(), slot, all, i + 1);
                    }
                }
                return Err(e);
            },
        }
        i = i + 1;
        proof {
            let more = account_write(storage.rows(), address, slot, all[i - 1].1)->Ok_0;
            assert((before + so_far) + more =~= before + (so_far + more));
        }
    }
    assert(all.take(n as int) =~= all);
    let ghost ops = accounts_write(storage.rows(), slot, all)->Ok_0;
    match encode_record(&archive.manifest) {
        Ok(value) => {
            batch.put(CF_SNAPSHOTS, slice_to_vec(slot_key(slot).as_slice()), value);
            assert(batch@ =~= before + ops.push(
                Op::Put(CF_SNAPSHOTS, slot_bytes(slot), value@),
            ));
            Ok(())
        },
        Err(e) => Err(e),
    }
}

proof fn lemma_accounts_stop(rows: Rows, slot: u64, all: Seq<(Digest, AccountModel)>, n: int)
    requires
        0 <= n <= all.len(),
        accounts_write(rows, slot, all.take(n)) is Err,
    ensures
        accounts_write(rows, slot, all) == accounts_write(rows, slot, all.take(n)),
    decreases all.len(),
{
    if n == all.len() {
        assert(all.take(n) =~= all);
    } else {
        assert(all.drop_last().take(n) =~= all.take(n));
        lemma_accounts_stop(rows, slot, all.drop_last(), n);
    }
}

/// Writes the accounts of a snapshot and its manifest, at once.
pub fn bootstrap_from_snapshot<D: Database>(storage: &mut Storage<D>, archive: &SnapshotArchive) -> (r:
    Result<(), StorageError>)
    ensures
        old(storage).reliable() ==> final(storage).reliable(),
        changed(
            old(storage).reliable(),
            old(storage).rows(),
            final(storage).rows(),
            outcome(r),
            with_unit(bootstrap_ops(old(storage).rows(), archive.model())),
        ),
{
    let mut batch = StorageWriteBatch::new();
    match stage_bootstrap(storage, &mut batch, archive) {
        Ok(()) => {},
        Err(e) => return Err(e),
    }
    assert(batch@ =~= bootstrap_ops(storage.rows(), archive.model())->Ok_0);
    storage.write(&batch)
}

/// Restores the state of a snapshot: its accounts, its manifest, its slot as a root, and
/// its bank hash, at once. The marker is there from before that until it is done.
pub fn restore_snapshot<D: Database>(storage: &mut Storage<D>, archive: &SnapshotArchive) -> (r:
    Result<(), StorageError>)
    ensures
        old(storage).reliable() ==> final(storage).reliable(),
        ({
            let marked = apply(
                old(storage).rows(),
                begin_restore(snapshot_slot(archive.model().0)),
            );
            ||| changed(
                old(storage).reliable(),
                marked,
                final(storage).rows(),
                outcome(r),
                with_unit(restore_ops(marked, archive.model())),
            )
            ||| !old(storage).reliable() && outcome(r) == Err::<(), ErrorModel>(
                ErrorModel::Database,
            ) && final(storage).rows() == old(storage).rows()
        }),
{
    let slot: u64 = archive.manifest.slot;
    let marker = SNAPSHOT_RESTORE_MARKER;
    let mut value: Vec<u8> = Vec::new();
    let _ = slot.encode(&mut value);
    assert(value@ =~= le_bytes(slot as nat, 8));
    match storage.put_cf(CF_DEFAULT, marker.as_slice(), value.as_slice()) {
        Ok(()) => {},
        Err(e) => return Err(e),
    }
    let ghost marked = storage.rows();
    let mut batch = StorageWriteBatch::new();
    match stage_bootstrap(storage, &mut batch, archive) {
        Ok(()) => {},
        Err(e) => return Err(e),
    }
    batch.put(CF_ROOTS, slice_to_vec(slot_key(slot).as_slice()), Vec::new());
    batch.put(
        CF_BANK_HASHES,
        slice_to_vec(slot_key(slot).as_slice()),
        slice_to_vec(archive.manifest.bank_hash.as_bytes().as_slice()),
    );
    batch.delete(CF_DEFAULT, slice_to_vec(marker.as_slice()));
    assert(batch@ =~= restore_ops(marked, archive.model())->Ok_0);
    storage.write(&batch)
}

/// Removes the marker of a restore that never came to its end; says whether there was one.
pub fn cleanup_partial_snapshot_restore<D: Database>(storage: &mut Storage<D>) -> (r: Result<
    bool,
    StorageError,
>)
    ensures
        old(storage).reliable() ==> final(storage).reliable(),
        changed(
            old(storage).reliable(),
            old(storage).rows(),
            final(storage).rows(),
            outcome(r),
            Ok((end_restore(old(storage).rows()), restore_begun(old(storage).rows()))),
        ),
{
    let marker = SNAPSHOT_RESTORE_MARKER;
    match storage.get_cf(CF_DEFAULT, marker.as_slice()) {
        Ok(Some(_)) => match storage.delete_cf(CF_DEFAULT, marker.as_slice()) {
            Ok(()) => Ok(true),
            Err(e) => Err(e),
        },
        Ok(None) => Ok(false),
        Err(e) => Err(e),
    }
}

/// A number in decimal digits, given in ASCII.
pub open spec fn digits_value(s: Seq<u8>) -> nat
    decreases s.len(),
{
    if s.len() == 0 {
        0
    } else {
        digits_value(s.drop_last()) * 10 + (s.last() - 48) as nat
    }
}

pub open spec fn all_digits(s: Seq<u8>) -> bool {
    forall|i: int| 0 <= i < s.len() ==> 48 <= #[trigger] s[i] <= 57
}

/// The number that a text says: digits, with a plus sign before them or none.
pub open spec fn parsed(s: Seq<u8>) -> Option<u64> {
    let digits = if s.len() > 0 && s[0] == 43 {
        s.drop_first()
    } else {
        s
    };
    if digits.len() > 0 && all_digits(digits) && digits_value(digits) <= u64::MAX {
        Some(digits_value(digits) as u64)
    } else {
        None
    }
}

/// `snapshot-`
pub open spec fn name_front() -> Seq<u8> {
    seq![115u8, 110u8, 97u8, 112u8, 115u8, 104u8, 111u8, 116u8, 45u8]
}

/// `.bin`
pub open spec fn name_back() -> Seq<u8> {
    seq![46u8, 98u8, 105u8, 110u8]
}

/// The slot in the name of a snapshot file.
pub open spec fn slot_in_name(name: Seq<u8>) -> Option<u64> {
    if name.len() >= 13 && name.subrange(0, 9) == name_front() && name.subrange(
        name.len() - 4,
        name.len() as int,
    ) == name_back() {
        parsed(name.subrange(9, name.len() - 4))
    } else {
        None
    }
}

proof fn lemma_digits_grow(s: Seq<u8>, n: int)
    requires
        0 <= n <= s.len(),
        all_digits(s),
    ensures
        digits_value(s.take(n)) <= digits_value(s),
    decreases s.len(),
{
    if n == s.len() {
        assert(s.take(n) =~= s);
    } else {
        assert(s.drop_last().take(n) =~= s.take(n));
        assert(all_digits(s.drop_last())) by {
            assert forall|i: int| 0 <= i < s.len() - 1 implies 48 <= #[trigger] s.drop_last()[i]
                <= 57 by {
                assert(s.drop_last()[i] == s[i]);
            }
        }
        lemma_digits_grow(s.drop_last(), n);
    }
}

/// The number that a text says.
fn parse_slot(s: &[u8]) -> (r: Option<u64>)
    ensures
        r == parsed(s@),
{
    let n: usize = s.len();
    let first: usize = if n > 0 && s[0] == 43 {
        1
    } else {
        0
    };
    let ghost digits = s@.skip(first as int);
    assert(s@.skip(0) =~= s@);
    assert(n > 0 ==> s@.skip(1) =~= s@.drop_first());
    if first == n {
        return None;
    }
    let mut value: u64 = 0;
    let mut i: usize = first;
    assert(digits.take(0) =~= Seq::<u8>::empty());
    while i < n
        invariant
            first <= i <= n == s@.len(),
            digits == s@.skip(first as int),
            parsed(s@) == if digits.len() > 0 && all_digits(digits) && digits_value(digits)
                <= u64::MAX {
                Some(digits_value(digits) as u64)
            } else {
                None
            },
            all_digits(digits.take(i - first)),
            value == digits_value(digits.take(i - first)),
        decreases n - i,
    {
        let c: u8 = s[i];
        let ghost at = i - first;
        proof {
            assert(digits[at] == c);
            assert(digits.take(at + 1).drop_last() =~= digits.take(at));
        }
        if c < 48 || c > 57 {
            return None;
        }
        let digit: u64 = (c - 48) as u64;
        proof {
            assert forall|j: int| 0 <= j < at + 1 implies 48 <= #[trigger] digits.take(at + 1)[j]
                <= 57 by {
                if j < at {
                    assert(digits.take(at)[j] == digits.take(at + 1)[j]);
                }
            }
            if all_digits(digits) {
                lemma_digits_grow(digits, at + 1);
            }
        }
        if value > u64::MAX / 10 {
            return None;
        }
        let tens: u64 = value * 10;
        if tens > u64::MAX - digit {
            return None;
        }
        value = tens + digit;
        i = i + 1;
    }
    assert(digits.take(n - first) =~= digits);
    Some(value)
}

/// The slot in the name of a snapshot file, `snapshot-` and the slot and `.bin`.
pub fn snapshot_slot_of(name: &[u8]) -> (r: Option<u64>)
    ensures
        r == slot_in_name(name@),
{
    let n: usize = name.len();
    if n < 13 {
        return None;
    }
    let front: Vec<u8> = vec![115u8, 110u8, 97u8, 112u8, 115u8, 104u8, 111u8, 116u8, 45u8];
    let back: Vec<u8> = vec![46u8, 98u8, 105u8, 110u8];
    assert(front@ =~= name_front());
    assert(back@ =~= name_back());
    let tail = slice_subrange(name, n - 4, n);
    assert(tail@.subrange(0, 4) =~= tail@);
    if !starts_with(name, front.as_slice()) || !starts_with(tail, back.as_slice()) {
        return None;
    }
    parse_slot(slice_subrange(name, 9, n - 4))
}

/// The place of the file of the latest snapshot among some names: the first of those with
/// the highest slot.
pub open spec fn is_latest(names: Seq<Vec<u8>>, at: int) -> bool {
    &&& 0 <= at < names.len()
    &&& slot_in_name(names[at]@) is Some
    &&& forall|i: int|
        0 <= i < names.len() && slot_in_name((#[trigger] names[i])@) is Some ==> {
            let here = slot_in_name(names[i]@)->0;
            let best = slot_in_name(names[at]@)->0;
            here < best || (here == best && at <= i)
        }
}

/// The file of the latest snapshot among the files of a directory, by their names.
pub fn find_latest_snapshot_file(names: &[Vec<u8>]) -> (r: Option<usize>)
    ensures
        match r {
            Some(at) => is_latest(names@, at as int) && forall|i: int|
                0 <= i < names@.len() ==> (slot_in_name((#[trigger] names@[i])@) matches Some(slot)
                    ==> slot <= slot_in_name(names@[at as int]@)->0),
            None => forall|i: int|
                0 <= i < names@.len() ==> slot_in_name((#[trigger] names@[i])@) is None,
        },
{
    let n: usize = names.len();
    let mut best: Option<(u64, usize)> = None;
    let mut i: usize = 0;
    while i < n
        invariant
            i <= n == names@.len(),
            match best {
                Some((slot, at)) => {
                    &&& at < i
                    &&& slot_in_name(names@[at as int]@) == Some(slot)
                    &&& forall|k: int|
                        0 <= k < i && slot_in_name((#[trigger] names@[k])@) is Some ==> {
                            let here = slot_in_name(names@[k]@)->0;
                            here < slot || (here == slot && at <= k)
                        }
                },
                None => forall|k: int|
                    0 <= k < i ==> slot_in_name((#[trigger] names@[k])@) is None,
            },
        decreases n - i,
    {
        match snapshot_slot_of(names[i].as_slice()) {
            Some(slot) => {
                let better = match best {
                    Some((top, _)) => slot > top,
                    None => true,
                };
                if better {
                    best = Some((slot, i));
                }
            },
            None => {},
        }
        i = i + 1;
    }
    match best {
        Some((_, at)) => Some(at),
        None => None,
    }
}

/// Accounts that are written together, with no address twice, are the latest versions.
proof fn lemma_accounts_written(
    rows: Rows,
    slot: u64,
    all: Seq<(Digest, AccountModel)>,
    i: int,
)
    requires
        accounts_write(rows, slot, all) is Ok,
        forall|a: int, b: int| 0 <= a < b < all.len() ==> (#[trigger] all[a]).0 != (#[trigger] all[b]).0,
        0 <= i < all.len(),
    ensures
        latest_account(apply(rows, accounts_write(rows, slot, all)->Ok_0), all[i].0) == Ok::<
            Option<AccountModel>,
            ErrorModel,
        >(Some(all[i].1)),
    decreases all.len(),
{
    let front = all.drop_last();
    let last = all.last();
    let earlier = accounts_write(rows, slot, front)->Ok_0;
    let more = account_write(rows, last.0, slot, last.1)->Ok_0;
    lemma_apply_concat(rows, earlier, more);
    let before = apply(rows, earlier);
    let owner = old_owner(latest_account(rows, last.0)->Ok_0);
    assert(account_ops(last.0, slot, last.1, owner) == Ok::<Seq<Op>, ErrorModel>(more));
    lemma_account_ops(before, last.0, slot, last.1, owner);
    if i < front.len() {
        assert forall|a: int, b: int| 0 <= a < b < front.len() implies (#[trigger] front[a]).0 != (
        #[trigger] front[b]).0 by {
            assert(all[a] == front[a] && all[b] == front[b]);
        }
        lemma_accounts_written(rows, slot, front, i);
        assert(front[i] == all[i]);
        assert(all[i].0 != all[all.len() - 1].0);
    }
}

/// What a restore leaves: every account of the snapshot, with no address twice in it, is
/// the latest version; its slot is a root with its bank hash; its manifest reads back; and
/// the marker is gone.
pub proof fn restored_snapshot_reads_back(rows: Rows, archive: ArchiveModel, i: int)
    requires
        restore_ops(rows, archive) is Ok,
        forall|a: int, b: int|
            0 <= a < b < archive.1.len() ==> (#[trigger] archive.1[a]).0 != (
            #[trigger] archive.1[b]).0,
    ensures
        ({
            let slot = snapshot_slot(archive.0);
            let after = apply(rows, restore_ops(rows, archive)->Ok_0);
            &&& 0 <= i < archive.1.len() ==> latest_account(after, archive.1[i].0) == Ok::<
                Option<AccountModel>,
                ErrorModel,
            >(Some(archive.1[i].1))
            &&& is_root(after, slot)
            &&& digest_row(after, CF_BANK_HASHES, slot_bytes(slot), "invalid bank hash length"@)
                == Ok::<Option<Digest>, ErrorModel>(Some(snapshot_bank_hash(archive.0)))
            &&& record::<SnapshotManifest>(after, CF_SNAPSHOTS, slot_bytes(slot)) == Ok::<
                Option<ManifestModel>,
                ErrorModel,
            >(Some(archive.0))
            &&& raw(after, CF_DEFAULT, SNAPSHOT_RESTORE_MARKER@) is None
        }),
{
    let slot = snapshot_slot(archive.0);
    let written = accounts_write(rows, slot, archive.1)->Ok_0;
    let bytes = encoded::<SnapshotManifest>(archive.0)->Ok_0;
    let bank = snapshot_bank_hash(archive.0)@;
    decoded_inverts_encoded::<SnapshotManifest>(archive.0);
    lemma_digest_of(snapshot_bank_hash(archive.0));
    let rest = seq![
        Op::Put(CF_SNAPSHOTS, slot_bytes(slot), bytes),
        Op::Put(CF_ROOTS, slot_bytes(slot), Seq::<u8>::empty()),
        Op::Put(CF_BANK_HASHES, slot_bytes(slot), bank),
        Op::Delete(CF_DEFAULT, SNAPSHOT_RESTORE_MARKER@),
    ];
    assert(restore_ops(rows, archive)->Ok_0 =~= written + rest);
    lemma_apply_concat(rows, written, rest);
    let middle = apply(rows, written);
    let after = apply(middle, rest);
    lemma_apply_put(middle, rest, 0);
    lemma_apply_put(middle, rest, 1);
    lemma_apply_put(middle, rest, 2);
    lemma_apply_delete(middle, rest, 3, CF_DEFAULT, SNAPSHOT_RESTORE_MARKER@);
    if 0 <= i < archive.1.len() {
        lemma_accounts_written(rows, slot, archive.1, i);
        let address = archive.1[i].0;
        lemma_apply_untouched(middle, rest, CF_ACCOUNT_INDEX, address@);
        assert forall|k: Seq<u8>| #[trigger] raw(after, CF_ACCOUNTS, k) == raw(
            middle,
            CF_ACCOUNTS,
            k,
        ) by {
            lemma_apply_untouched(middle, rest, CF_ACCOUNTS, k);
        }
    }
}

/// A restore that has begun is marked as such until it is over, or until the marker is taken
/// away. Taking it away touches nothing else, and tells whether it was there.
pub proof fn begun_restore_is_marked(rows: Rows, slot: u64, cf: Cf, key: Seq<u8>)
    ensures
        ({
            let marked = apply(rows, begin_restore(slot));
            let ended = apply(rows, end_restore(rows));
            &&& restore_begun(marked)
            &&& !restore_begun(ended)
            &&& !restore_begun(rows) ==> ended == rows
            &&& cf != CF_DEFAULT || key != SNAPSHOT_RESTORE_MARKER@ ==> {
                &&& raw(marked, cf, key) == raw(rows, cf, key)
                &&& raw(ended, cf, key) == raw(rows, cf, key)
            }
        }),
{
    reveal_with_fuel(apply, 2);
}

/// Accounts that are written together, with no address twice, are there as of the slot; those of
/// other addresses, and other slots, stay.
proof fn lemma_accounts_at_slot(
    rows: Rows,
    slot: u64,
    all: Seq<(Digest, AccountModel)>,
    address: Digest,
    at: u64,
)
    requires
        accounts_write(rows, slot, all) is Ok,
        forall|a: int, b: int| 0 <= a < b < all.len() ==> (#[trigger] all[a]).0 != (#[trigger] all[b]).0,
    ensures
        ({
            let after = apply(rows, accounts_write(rows, slot, all)->Ok_0);
            &&& forall|i: int|
                0 <= i < all.len() ==> account_at(after, (#[trigger] all[i]).0, slot) == Ok::<
                    Option<AccountModel>,
                    ErrorModel,
                >(Some(all[i].1))
            &&& at != slot || (forall|i: int| 0 <= i < all.len() ==> (#[trigger] all[i]).0 != address)
                ==> account_at(after, address, at) == account_at(rows, address, at)
            &&& (forall|i: int| 0 <= i < all.len() ==> (#[trigger] all[i]).0 != address)
                ==> latest_account(after, address) == latest_account(rows, address)
        }),
    decreases all.len(),
{
    if all.len() == 0 {
        assert(apply(rows, Seq::<Op>::empty()) == rows);
    } else {
        let front = all.drop_last();
        let last = all[all.len() - 1];
        let earlier = accounts_write(rows, slot, front)->Ok_0;
        let more = account_write(rows, last.0, slot, last.1)->Ok_0;
        lemma_apply_concat(rows, earlier, more);
        let before = apply(rows, earlier);
        let owner = old_owner(latest_account(rows, last.0)->Ok_0);
        assert(account_ops(last.0, slot, last.1, owner) == Ok::<Seq<Op>, ErrorModel>(more));
        lemma_account_ops(before, last.0, slot, last.1, owner);
        assert forall|a: int, b: int| 0 <= a < b < front.len() implies (#[trigger] front[a]).0 != (
        #[trigger] front[b]).0 by {
            assert(all[a] == front[a] && all[b] == front[b]);
        }
        lemma_accounts_at_slot(rows, slot, front, address, at);
        let after = apply(rows, accounts_write(rows, slot, all)->Ok_0);
        assert forall|i: int| 0 <= i < all.len() implies account_at(
            after,
            (#[trigger] all[i]).0,
            slot,
        ) == Ok::<Option<AccountModel>, ErrorModel>(Some(all[i].1)) by {
            if i < front.len() {
                assert(front[i] == all[i]);
                assert(all[i].0 != all[all.len() - 1].0);
            }
        }
        if forall|i: int| 0 <= i < all.len() ==> (#[trigger] all[i]).0 != address {
            assert(last.0 != address);
            assert forall|i: int| 0 <= i < front.len() implies (#[trigger] front[i]).0
                != address by {
                assert(front[i] == all[i]);
            }
        }
    }
}

/// What starting from a snapshot leaves: every account of it, with no address twice, is the
/// latest version, as of the slot of the snapshot; accounts of other addresses stay, and so do
/// all versions of other slots; the manifest reads back; and no slot becomes a root.
pub proof fn bootstrapped_snapshot_reads_back(
    rows: Rows,
    archive: ArchiveModel,
    i: int,
    address: Digest,
    at: u64,
)
    requires
        bootstrap_ops(rows, archive) is Ok,
        forall|a: int, b: int|
            0 <= a < b < archive.1.len() ==> (#[trigger] archive.1[a]).0 != (
            #[trigger] archive.1[b]).0,
    ensures
        ({
            let slot = (archive.0).0;
            let after = apply(rows, bootstrap_ops(rows, archive)->Ok_0);
            &&& 0 <= i < archive.1.len() ==> {
                let (a, account) = archive.1[i];
                &&& latest_account(after, a) == Ok::<Option<AccountModel>, ErrorModel>(
                    Some(account),
                )
                &&& account_at(after, a, slot) == Ok::<Option<AccountModel>, ErrorModel>(
                    Some(account),
                )
            }
            &&& (forall|n: int|
                0 <= n < archive.1.len() ==> (#[trigger] archive.1[n]).0 != address)
                ==> latest_account(after, address) == latest_account(rows, address) && account_at(
                after,
                address,
                at,
            ) == account_at(rows, address, at)
            &&& at != slot ==> account_at(after, address, at) == account_at(rows, address, at)
            &&& snapshot_at(after, slot) == Ok::<Option<ManifestModel>, ErrorModel>(
                Some(archive.0),
            )
            &&& is_root(after, at) == is_root(rows, at)
        }),
{
    let slot = snapshot_slot(archive.0);
    let written = accounts_write(rows, slot, archive.1)->Ok_0;
    let bytes = encoded::<SnapshotManifest>(archive.0)->Ok_0;
    decoded_inverts_encoded::<SnapshotManifest>(archive.0);
    let put = Op::Put(CF_SNAPSHOTS, slot_bytes(slot), bytes);
    let middle = apply(rows, written);
    let after = apply(rows, bootstrap_ops(rows, archive)->Ok_0);
    assert(written.push(put).drop_last() =~= written);
    assert(after == middle.insert((CF_SNAPSHOTS, slot_bytes(slot)), bytes));
    lemma_accounts_at_slot(rows, slot, archive.1, address, at);
    if 0 <= i < archive.1.len() {
        lemma_accounts_written(rows, slot, archive.1, i);
        assert(account_at(middle, archive.1[i].0, slot) is Ok);
    }
    assert forall|a: Digest, s: u64| #[trigger] account_at(after, a, s) == account_at(
        middle,
        a,
        s,
    ) by {}
    assert forall|a: Digest| #[trigger] latest_account(after, a) == latest_account(middle, a) by {
        assert(raw(after, CF_ACCOUNT_INDEX, a@) == raw(middle, CF_ACCOUNT_INDEX, a@));
    }
    lemma_accounts_touch_no_root(rows, slot, archive.1, at);
}

proof fn lemma_accounts_touch_no_root(
    rows: Rows,
    slot: u64,
    all: Seq<(Digest, AccountModel)>,
    at: u64,
)
    requires
        accounts_write(rows, slot, all) is Ok,
    ensures
        is_root(apply(rows, accounts_write(rows, slot, all)->Ok_0), at) == is_root(rows, at),
    decreases all.len(),
{
    if all.len() == 0 {
        assert(apply(rows, Seq::<Op>::empty()) == rows);
    } else {
        let front = all.drop_last();
        let last = all[all.len() - 1];
        let earlier = accounts_write(rows, slot, front)->Ok_0;
        let more = account_write(rows, last.0, slot, last.1)->Ok_0;
        lemma_accounts_touch_no_root(rows, slot, front, at);
        lemma_apply_concat(rows, earlier, more);
        lemma_apply_untouched(apply(rows, earlier), more, CF_ROOTS, slot_bytes(at));
    }
}

/// A snapshot holds every account with its latest version, and no other. Its manifest tells the
/// slot, the bank hash, how many accounts there are, and the time; it is stored, and no account
/// changes.
pub proof fn snapshot_holds_every_account(
    rows: Rows,
    slot: u64,
    bank_hash: Digest,
    timestamp: i64,
    address: Digest,
)
    requires
        rows.dom().finite(),
        rows.dom().len() < usize::MAX,
    ensures
        created(rows, slot, bank_hash, timestamp) matches Ok((ops, archive)) ==> {
            let after = apply(rows, ops);
            &&& is_account_list(rows, None, archive.1)
            &&& archive.0 == (slot, (bank_hash, (archive.1.len() as u64, timestamp)))
            &&& archive.1.len() <= u64::MAX
            &&& snapshot_at(after, slot) == Ok::<Option<ManifestModel>, ErrorModel>(
                Some(archive.0),
            )
            &&& latest_account(after, address) == latest_account(rows, address)
        },
        (forall|a: Digest| (#[trigger] latest_account(rows, a)) is Ok) ==> created(
            rows,
            slot,
            bank_hash,
            timestamp,
        ) is Ok,
{
    account_list_is_complete(rows, None);
    account_list_is_short(rows, None);
    if created(rows, slot, bank_hash, timestamp) is Ok {
        let archive = (created(rows, slot, bank_hash, timestamp)->Ok_0).1;
        put_then_get::<SnapshotManifest>(rows, CF_SNAPSHOTS, slot_bytes(slot), archive.0);
        reveal_with_fuel(apply, 2);
    }
}

/// A snapshot that is restored in another store gives that store every account that the first one
/// had, with the same latest version.
pub proof fn restored_snapshot_has_every_account(
    rows: Rows,
    slot: u64,
    bank_hash: Digest,
    timestamp: i64,
    target: Rows,
    address: Digest,
)
    requires
        rows.dom().finite(),
        rows.dom().len() < usize::MAX,
        created(rows, slot, bank_hash, timestamp) is Ok,
        restore_ops(target, (created(rows, slot, bank_hash, timestamp)->Ok_0).1) is Ok,
    ensures
        ({
            let archive = (created(rows, slot, bank_hash, timestamp)->Ok_0).1;
            let after = apply(target, restore_ops(target, archive)->Ok_0);
            &&& (latest_account(rows, address) matches Ok(Some(account)) ==> latest_account(
                after,
                address,
            ) == Ok::<Option<AccountModel>, ErrorModel>(Some(account)))
            &&& is_root(after, slot)
            &&& bank_hash_at(after, slot) == Ok::<Option<Digest>, ErrorModel>(Some(bank_hash))
            &&& !restore_begun(after)
        }),
{
    snapshot_holds_every_account(rows, slot, bank_hash, timestamp, address);
    let archive = (created(rows, slot, bank_hash, timestamp)->Ok_0).1;
    let list = archive.1;
    assert forall|a: int, b: int| 0 <= a < b < list.len() implies (#[trigger] list[a]).0 != (
    #[trigger] list[b]).0 by {
        lemma_lex_irreflexive(list[a].0@);
    }
    restored_snapshot_reads_back(target, archive, 0);
    let got = latest_account(rows, address);
    if got is Ok && got->Ok_0 is Some {
        let item = (address, got->Ok_0->0);
        assert(list.contains(item));
        let i = choose|i: int| 0 <= i < list.len() && list[i] == item;
        restored_snapshot_reads_back(target, archive, i);
    }
}

/// A character below 128 as a byte.
pub open spec fn ascii(text: Seq<char>) -> Seq<u8> {
    Seq::new(text.len(), |i: int| text[i] as u8)
}

/// The name of a snapshot file tells its slot, whatever the slot.
pub proof fn snapshot_name_tells_slot(slot: u64)
    ensures
        slot_in_name(
            seq![115u8, 110u8, 97u8, 112u8, 115u8, 104u8, 111u8, 116u8, 45u8] + ascii(
                decimal(slot as nat),
            ) + seq![46u8, 98u8, 105u8, 110u8],
        ) == Some(slot),
{
    let digits = ascii(decimal(slot as nat));
    let name = name_front() + digits + name_back();
    lemma_decimal_digits(slot as nat);
    assert(name.subrange(0, 9) =~= name_front());
    assert(name.subrange(name.len() - 4, name.len() as int) =~= name_back());
    assert(name.subrange(9, name.len() - 4) =~= digits);
    assert(48 <= digits[0] <= 57);
}

proof fn lemma_decimal_digits(n: nat)
    ensures
        ascii(decimal(n)).len() > 0,
        all_digits(ascii(decimal(n))),
        digits_value(ascii(decimal(n))) == n,
    decreases n,
{
    let digits = ascii(decimal(n));
    if n < 10 {
        assert(digits.drop_last() =~= Seq::<u8>::empty());
        reveal_with_fuel(digits_value, 2);
    } else {
        lemma_decimal_digits(n / 10);
        let front = ascii(decimal(n / 10));
        assert(digits.drop_last() =~= front);
        assert forall|i: int| 0 <= i < digits.len() implies 48 <= #[trigger] digits[i] <= 57 by {
            if i < front.len() {
                assert(digits[i] == front[i]);
            }
        }
        assert(n == (n / 10) * 10 + n % 10) by (nonlinear_arith);
    }
}

/// A snapshot archive is written field by field, in this order.
pub proof fn snapshot_archive_is_written_in_order(x: SnapshotArchive)
    ensures
        <SnapshotArchive as Codec>::layout(x.model()) == <SnapshotManifest as Codec>::layout(x.manifest.model())
            + <Vec<(Digest, Account)> as Codec>::layout(x.accounts.model()),
{
}

} // verus!
