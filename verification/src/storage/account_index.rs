//! Accounts: every version of each, and which version is the latest.

use crate::bytes::{
    be_bytes, be_value, lemma_be_bytes_len, lemma_be_bytes_of_value, lemma_be_bytes_order,
    lemma_be_value_of_bytes, lemma_byte_ranges, lemma_lex_append, lemma_lex_common_prefix,
    lemma_lex_irreflexive, lemma_lex_transitive, lex_less, u64_from_be,
};
use crate::codec::{models, Codec};
use crate::digest::{digest_of, lemma_digest_bytes, lemma_digest_ext, lemma_digest_of, Digest};
use crate::ledger::Account;
use crate::storage::cf::{Cf, CF_ACCOUNTS, CF_ACCOUNT_INDEX};
use crate::storage::database::{
    comes_before, finite_rows_have_walks, has_prefix, lemma_walk, on_walk, reached, views, walk,
    walk_is_within_rows, walked, Database, Walk, WalkModel,
};
use crate::storage::error::StorageError;
use crate::storage::keys::{
    account_bytes, account_key, account_keys_are_distinct, account_keys_are_ordered, slot_bytes,
    slot_key,
};
use crate::storage::owner_index::{
    index_follows_owner, index_ops, off_lists, old_owner, on_lists, owner_of,
};
use crate::storage::store::{
    agrees, changed, corruption, decode_record, decoded, decoded_inverts_encoded, encode_record,
    encoded, error_model, outcome, raw, record, ErrorModel, Storage,
};
use crate::storage::write_batch::{
    apply, apply_op, changes_keep_rows_finite, lemma_apply_concat, lemma_apply_put,
    lemma_apply_untouched, touches, Op, Rows, StorageWriteBatch,
};
use std::collections::HashSet;
use vstd::prelude::*;
use vstd::slice::slice_to_vec;

verus! {

/// An account, as a mathematical value: its balance, its owner, its data.
pub type AccountModel = (u64, (Digest, Seq<u8>));

/// The slot in a row of the account index.
pub open spec fn index_slot(bytes: Seq<u8>) -> Result<u64, ErrorModel> {
    if bytes.len() == 8 {
        Ok(be_value(bytes) as u64)
    } else {
        Err(ErrorModel::Corruption("invalid slot in account_index"@))
    }
}

/// An account as of a slot.
pub open spec fn account_at(rows: Rows, address: Digest, slot: u64) -> Result<
    Option<AccountModel>,
    ErrorModel,
> {
    record::<Account>(rows, CF_ACCOUNTS, account_bytes(address, slot))
}

/// The latest version of an account: the one that the index points to.
pub open spec fn latest_account(rows: Rows, address: Digest) -> Result<
    Option<AccountModel>,
    ErrorModel,
> {
    match raw(rows, CF_ACCOUNT_INDEX, address@) {
        Some(bytes) => match index_slot(bytes) {
            Ok(slot) => account_at(rows, address, slot),
            Err(e) => Err(e),
        },
        None => Ok(None),
    }
}

/// The changes that write a version of an account: the version, the pointer to it, and
/// the lists of its owner.
pub open spec fn account_ops(
    address: Digest,
    slot: u64,
    account: AccountModel,
    old: Option<Digest>,
) -> Result<Seq<Op>, ErrorModel> {
    match encoded::<Account>(account) {
        Ok(bytes) => Ok(
            seq![
                Op::Put(CF_ACCOUNTS, account_bytes(address, slot), bytes),
                Op::Put(CF_ACCOUNT_INDEX, address@, slot_bytes(slot)),
            ] + index_ops(address, old, owner_of(account)),
        ),
        Err(e) => Err(e),
    }
}

/// The changes that write a version of an account, given what the store holds of it.
pub open spec fn account_write(rows: Rows, address: Digest, slot: u64, account: AccountModel) -> Result<
    Seq<Op>,
    ErrorModel,
> {
    match latest_account(rows, address) {
        Ok(old) => account_ops(address, slot, account, old_owner(old)),
        Err(e) => Err(e),
    }
}

/// The versions of an account from the newest on.
pub open spec fn history_walk(address: Digest, limit: nat) -> WalkModel {
    WalkModel {
        cf: CF_ACCOUNTS,
        prefix: address@,
        start: Some(account_bytes(address, u64::MAX)),
        key_len: None,
        reverse: true,
        limit,
    }
}

/// The versions in some rows, up to the first row that is not one of a version.
pub open spec fn versions(found: Seq<(Seq<u8>, Seq<u8>)>) -> Result<
    Seq<(u64, AccountModel)>,
    ErrorModel,
>
    decreases found.len(),
{
    if found.len() == 0 {
        Ok(Seq::empty())
    } else {
        match versions(found.drop_last()) {
            Err(e) => Err(e),
            Ok(so_far) => if so_far.len() < found.len() - 1 || found.last().0.len() < 72 {
                Ok(so_far)
            } else {
                match decoded::<Account>(found.last().1) {
                    Ok(account) => Ok(
                        so_far.push((be_value(found.last().0.subrange(64, 72)) as u64, account)),
                    ),
                    Err(e) => Err(e),
                }
            },
        }
    }
}

/// The versions of an account, newest first: at most `limit` of them.
pub open spec fn history(rows: Rows, address: Digest, limit: nat) -> Result<
    Seq<(u64, AccountModel)>,
    ErrorModel,
> {
    versions(walk(rows, history_walk(address, limit)))
}

/// Rows that are walked no further give no more versions.
proof fn lemma_versions_stop(found: Seq<(Seq<u8>, Seq<u8>)>, n: int)
    requires
        0 <= n < found.len(),
        versions(found.take(n)) is Err || found[n].0.len() < 72 || decoded::<Account>(found[n].1) is Err,
        versions(found.take(n)) is Ok ==> versions(found.take(n))->Ok_0.len() == n,
    ensures
        versions(found) == versions(found.take(n + 1)),
        versions(found) is Ok ==> versions(found)->Ok_0.len() < found.len(),
    decreases found.len(),
{
    assert(found.take(n + 1).drop_last() =~= found.take(n));
    if n == found.len() - 1 {
        assert(found.take(n + 1) =~= found);
    } else {
        let front = found.drop_last();
        assert(front.take(n) =~= found.take(n));
        assert(front.take(n + 1) =~= found.take(n + 1));
        lemma_versions_stop(front, n);
    }
}

/// Which versions of accounts are good.
pub enum Line<'a> {
    /// Those at or before a slot.
    UpTo(u64),
    /// Those of certain slots.
    Of(&'a HashSet<u64>),
    /// Those at or before a slot, and those of certain slots.
    Fork(u64, &'a HashSet<u64>),
}

/// Which versions of accounts are good, as a mathematical value.
pub enum LineModel {
    UpTo(u64),
    Of(Set<u64>),
    Fork(u64, Set<u64>),
}

pub open spec fn keeps(line: LineModel, slot: u64) -> bool {
    match line {
        LineModel::UpTo(max) => slot <= max,
        LineModel::Of(slots) => slots.contains(slot),
        LineModel::Fork(root, slots) => slot <= root || slots.contains(slot),
    }
}

impl<'a> View for Line<'a> {
    type V = LineModel;

    open spec fn view(&self) -> LineModel {
        match self {
            Line::UpTo(max) => LineModel::UpTo(*max),
            Line::Of(slots) => LineModel::Of(slots@),
            Line::Fork(root, slots) => LineModel::Fork(*root, slots@),
        }
    }
}

impl<'a> Line<'a> {
    /// Whether a version is good.
    pub fn keeps(&self, slot: u64) -> (r: bool)
        ensures
            r == keeps(self@, slot),
    {
        broadcast use vstd::std_specs::hash::group_hash_axioms;

        match self {
            Line::UpTo(max) => slot <= *max,
            Line::Of(slots) => slots.contains(&slot),
            Line::Fork(root, slots) => slot <= *root || slots.contains(&slot),
        }
    }
}

/// The newest good version, in a list from the newest on.
pub open spec fn best(found: Seq<(u64, AccountModel)>, line: LineModel) -> Option<u64>
    decreases found.len(),
{
    if found.len() == 0 {
        None
    } else if keeps(line, found[0].0) {
        Some(found[0].0)
    } else {
        best(found.drop_first(), line)
    }
}

/// The change that lets the index point to a version, or to none.
pub open spec fn repoint(address: Digest, slot: Option<u64>) -> Op {
    match slot {
        Some(s) => Op::Put(CF_ACCOUNT_INDEX, address@, slot_bytes(s)),
        None => Op::Delete(CF_ACCOUNT_INDEX, address@),
    }
}

/// The change that lets the index point to the newest good version of an account.
pub open spec fn repoint_to_best(rows: Rows, address: Digest, line: LineModel) -> Result<
    Op,
    ErrorModel,
> {
    match history(rows, address, usize::MAX as nat) {
        Ok(found) => Ok(repoint(address, best(found, line))),
        Err(e) => Err(e),
    }
}

/// All rows of the account index.
pub open spec fn index_walk() -> WalkModel {
    WalkModel {
        cf: CF_ACCOUNT_INDEX,
        prefix: Seq::empty(),
        start: None,
        key_len: None,
        reverse: false,
        limit: usize::MAX as nat,
    }
}

/// A row of the account index that points to a version that is not good.
pub open spec fn is_stale(row: (Seq<u8>, Seq<u8>), line: LineModel) -> bool {
    row.0.len() == 64 && row.1.len() == 8 && !keeps(line, be_value(row.1) as u64)
}

/// The changes that let no row of the index point to a version that is not good.
pub open spec fn rewind_ops(rows: Rows, index: Seq<(Seq<u8>, Seq<u8>)>, line: LineModel) -> Result<
    Seq<Op>,
    ErrorModel,
>
    decreases index.len(),
{
    if index.len() == 0 {
        Ok(Seq::empty())
    } else {
        match rewind_ops(rows, index.drop_last(), line) {
            Err(e) => Err(e),
            Ok(ops) => if is_stale(index.last(), line) {
                match repoint_to_best(rows, digest_of(index.last().0), line) {
                    Ok(op) => Ok(ops.push(op)),
                    Err(e) => Err(e),
                }
            } else {
                Ok(ops)
            },
        }
    }
}

/// The rewind of the whole index, with the number of rows that it changes.
pub open spec fn rewind(rows: Rows, line: LineModel) -> Result<(Seq<Op>, u64), ErrorModel> {
    match rewind_ops(rows, walk(rows, index_walk()), line) {
        Ok(ops) => Ok((ops, ops.len() as u64)),
        Err(e) => Err(e),
    }
}

/// The slot that everything at or before it is final of: the least one of an ancestry.
pub open spec fn root_of(slots: Set<u64>) -> u64 {
    if slots.len() == 0 {
        0
    } else {
        choose|s: u64| slots.contains(s) && forall|x: u64| slots.contains(x) ==> s <= x
    }
}

/// The changes that undo the versions that some accounts have at a slot.
pub open spec fn cleanup_ops(rows: Rows, slot: u64, addresses: Seq<Digest>, line: LineModel) -> Result<
    Seq<Op>,
    ErrorModel,
>
    decreases addresses.len(),
{
    if addresses.len() == 0 {
        Ok(Seq::empty())
    } else {
        match cleanup_ops(rows, slot, addresses.drop_last(), line) {
            Err(e) => Err(e),
            Ok(ops) => match repoint_to_best(rows, addresses.last(), line) {
                Ok(op) => Ok(
                    ops.push(Op::Delete(CF_ACCOUNTS, account_bytes(addresses.last(), slot))).push(
                        op,
                    ),
                ),
                Err(e) => Err(e),
            },
        }
    }
}

/// The undoing of a slot, with the number of accounts that it is undone for.
pub open spec fn cleanup(rows: Rows, slot: u64, addresses: Seq<Digest>, line: LineModel) -> Result<
    (Seq<Op>, u64),
    ErrorModel,
> {
    match cleanup_ops(rows, slot, addresses, line) {
        Ok(ops) => Ok((ops, addresses.len() as u64)),
        Err(e) => Err(e),
    }
}

/// Whether an address is in a partition.
pub open spec fn in_partition(key: Seq<u8>, part: Option<(u64, u64)>) -> bool {
    part matches Some((partition, total)) ==> key[0] as u64 % total == partition
}

/// The latest versions of the accounts in some rows of the index.
pub open spec fn accounts_in(
    rows: Rows,
    index: Seq<(Seq<u8>, Seq<u8>)>,
    part: Option<(u64, u64)>,
) -> Result<Seq<(Digest, AccountModel)>, ErrorModel>
    decreases index.len(),
{
    if index.len() == 0 {
        Ok(Seq::empty())
    } else {
        let key = index.last().0;
        match accounts_in(rows, index.drop_last(), part) {
            Err(e) => Err(e),
            Ok(so_far) => if key.len() == 64 && in_partition(key, part) {
                match latest_account(rows, digest_of(key)) {
                    Err(e) => Err(e),
                    Ok(None) => Ok(so_far),
                    Ok(Some(account)) => Ok(so_far.push((digest_of(key), account))),
                }
            } else {
                Ok(so_far)
            },
        }
    }
}

/// The latest versions of all accounts, or of those of one partition, in the order of
/// their addresses.
pub open spec fn accounts(rows: Rows, part: Option<(u64, u64)>) -> Result<
    Seq<(Digest, AccountModel)>,
    ErrorModel,
> {
    accounts_in(rows, walk(rows, index_walk()), part)
}

impl<D: Database> Storage<D> {
    /// Writes a version of an account, lets the index point to it, and brings the lists of
    /// owners up to date, all at once.
    pub fn put_account(&mut self, address: &Digest, slot: u64, account: &Account) -> (r: Result<
        (),
        StorageError,
    >)
        ensures
            old(self).reliable() ==> final(self).reliable(),
            changed(
                old(self).reliable(),
                old(self).rows(),
                final(self).rows(),
                outcome(r),
                match account_write(old(self).rows(), *address, slot, account.model()) {
                    Ok(ops) => Ok((ops, ())),
                    Err(e) => Err(e),
                },
            ),
    {
        match self.prepare_account_write(address, slot, account) {
            Ok(batch) => self.write(&batch),
            Err(e) => Err(e),
        }
    }

    /// The changes that write a version of an account, for the caller to make.
    pub fn prepare_account_write(&self, address: &Digest, slot: u64, account: &Account) -> (r:
        Result<StorageWriteBatch, StorageError>)
        ensures
            match r {
                Ok(batch) => account_write(self.rows(), *address, slot, account.model()) == Ok::<
                    Seq<Op>,
                    ErrorModel,
                >(batch@),
                Err(e) => agrees(
                    self.reliable(),
                    Err(error_model(e)),
                    account_write(self.rows(), *address, slot, account.model()),
                ),
            },
    {
        let mut batch = StorageWriteBatch::new();
        match self.append_account_write(&mut batch, address, slot, account) {
            Ok(()) => {
                let ghost ops = account_write(self.rows(), *address, slot, account.model())->Ok_0;
                assert(Seq::<Op>::empty() + ops =~= ops);
                Ok(batch)
            },
            Err(e) => Err(e),
        }
    }

    /// Adds the changes that write a version of an account to a batch.
    pub fn append_account_write(
        &self,
        batch: &mut StorageWriteBatch,
        address: &Digest,
        slot: u64,
        account: &Account,
    ) -> (r: Result<(), StorageError>)
        ensures
            match r {
                Ok(()) => {
                    let ops = account_write(self.rows(), *address, slot, account.model());
                    ops is Ok && final(batch)@ == old(batch)@ + ops->Ok_0
                },
                Err(e) => final(batch)@ == old(batch)@ && agrees(
                    self.reliable(),
                    Err(error_model(e)),
                    account_write(self.rows(), *address, slot, account.model()),
                ),
            },
    {
        match self.get_account(address) {
            Ok(found) => {
                let before = found.as_ref();
                Self::write_account_to_batch(batch, address, slot, account, before)
            },
            Err(e) => Err(e),
        }
    }

    /// Adds the changes that write a version of an account to a batch, for a caller who
    /// knows what the account was before.
    pub fn append_account_write_with_old(
        batch: &mut StorageWriteBatch,
        address: &Digest,
        slot: u64,
        account: &Account,
        old_account: Option<&Account>,
    ) -> (r: Result<(), StorageError>)
        ensures
            ({
                let ops = account_ops(
                    *address,
                    slot,
                    account.model(),
                    match old_account {
                        Some(a) => Some(a.owner),
                        None => None,
                    },
                );
                match r {
                    Ok(()) => ops is Ok && final(batch)@ == old(batch)@ + ops->Ok_0,
                    Err(e) => final(batch)@ == old(batch)@ && ops == Err::<Seq<Op>, ErrorModel>(
                        error_model(e),
                    ),
                }
            }),
    {
        Self::write_account_to_batch(batch, address, slot, account, old_account)
    }

    fn write_account_to_batch(
        batch: &mut StorageWriteBatch,
        address: &Digest,
        slot: u64,
        account: &Account,
        old_account: Option<&Account>,
    ) -> (r: Result<(), StorageError>)
        ensures
            ({
                let ops = account_ops(
                    *address,
                    slot,
                    account.model(),
                    match old_account {
                        Some(a) => Some(a.owner),
                        None => None,
                    },
                );
                match r {
                    Ok(()) => ops is Ok && final(batch)@ == old(batch)@ + ops->Ok_0,
                    Err(e) => final(batch)@ == old(batch)@ && ops == Err::<Seq<Op>, ErrorModel>(
                        error_model(e),
                    ),
                }
            }),
    {
        let value = match encode_record(account) {
            Ok(value) => value,
            Err(e) => return Err(e),
        };
        let ghost before = batch@;
        batch.put(CF_ACCOUNTS, slice_to_vec(account_key(address, slot).as_slice()), value);
        batch.put(
            CF_ACCOUNT_INDEX,
            slice_to_vec(address.as_bytes().as_slice()),
            slice_to_vec(slot_key(slot).as_slice()),
        );
        Self::write_index_updates(batch, address, old_account, account);
        assert(batch@ =~= before + account_ops(
            *address,
            slot,
            account.model(),
            match old_account {
                Some(a) => Some(a.owner),
                None => None,
            },
        )->Ok_0);
        Ok(())
    }

    /// The latest version of an account.
    pub fn get_account(&self, address: &Digest) -> (r: Result<Option<Account>, StorageError>)
        ensures
            agrees(self.reliable(), outcome(r), latest_account(self.rows(), *address)),
    {
        match self.get_cf(CF_ACCOUNT_INDEX, address.as_bytes().as_slice()) {
            Ok(Some(bytes)) => {
                if bytes.len() != 8 {
                    return Err(corruption("invalid slot in account_index"));
                }
                let slot: u64 = u64_from_be(bytes.as_slice(), 0);
                assert(bytes@.subrange(0, 8) =~= bytes@);
                self.get_account_at_slot(address, slot)
            },
            Ok(None) => Ok(None),
            Err(e) => Err(e),
        }
    }

    /// An account as of a slot at which it was written.
    pub fn get_account_at_slot(&self, address: &Digest, slot: u64) -> (r: Result<
        Option<Account>,
        StorageError,
    >)
        ensures
            agrees(self.reliable(), outcome(r), account_at(self.rows(), *address, slot)),
    {
        let key = account_key(address, slot);
        self.get_record::<Account>(CF_ACCOUNTS, key.as_slice())
    }

    /// The versions of an account, newest first.
    pub fn get_account_history(&self, address: &Digest, limit: usize) -> (r: Result<
        Vec<(u64, Account)>,
        StorageError,
    >)
        ensures
            agrees(self.reliable(), outcome(r), history(self.rows(), *address, limit as nat)),
    {
        let w = Walk {
            cf: CF_ACCOUNTS,
            prefix: slice_to_vec(address.as_bytes().as_slice()),
            start: Some(slice_to_vec(account_key(address, u64::MAX).as_slice())),
            key_len: None,
            reverse: true,
            limit,
        };
        let rows = match self.db.scan(&w) {
            Ok(rows) => rows,
            Err(e) => return Err(e),
        };
        let ghost found = views(rows@);
        proof {
            lemma_walk(self.rows(), w@, found);
            assert(w@ == history_walk(*address, limit as nat));
        }
        let n: usize = rows.len();
        let mut results: Vec<(u64, Account)> = Vec::new();
        let mut i: usize = 0;
        assert(models(results@) =~= Seq::<(u64, AccountModel)>::empty());
        assert(found.take(0) =~= Seq::<(Seq<u8>, Seq<u8>)>::empty());
        while i < n
            invariant
                i <= n == rows@.len(),
                found == views(rows@),
                found == walk(self.rows(), history_walk(*address, limit as nat)),
                results@.len() == i,
                versions(found.take(i as int)) == Ok::<Seq<(u64, AccountModel)>, ErrorModel>(
                    models(results@),
                ),
            decreases n - i,
        {
            proof {
                assert(found.take(i + 1).drop_last() =~= found.take(i as int));
                assert(found.take(i + 1).last() == rows@[i as int]@);
                assert(found[i as int] == rows@[i as int]@);
            }
            if rows[i].key.len() < 72 {
                proof {
                    lemma_versions_stop(found, i as int);
                }
                return Ok(results);
            }
            let slot: u64 = u64_from_be(rows[i].key.as_slice(), 64);
            match decode_record::<Account>(rows[i].value.as_slice()) {
                Ok(account) => {
                    let ghost before = results@;
                    results.push((slot, account));
                    assert(models(results@) =~= models(before).push((slot, account.model())));
                },
                Err(e) => {
                    proof {
                        lemma_versions_stop(found, i as int);
                    }
                    return Err(e);
                },
            }
            i = i + 1;
        }
        assert(found.take(n as int) =~= found);
        Ok(results)
    }

    /// The change that lets the index point to the newest good version of an account.
    fn best_version(&self, batch: &mut StorageWriteBatch, address: &Digest, line: &Line) -> (r:
        Result<(), StorageError>)
        ensures
            match r {
                Ok(()) => {
                    let op = repoint_to_best(self.rows(), *address, line@);
                    op is Ok && final(batch)@ == old(batch)@.push(op->Ok_0)
                },
                Err(e) => agrees(
                    self.reliable(),
                    Err(error_model(e)),
                    repoint_to_best(self.rows(), *address, line@),
                ),
            },
    {
        let found = match self.get_account_history(address, usize::MAX) {
            Ok(found) => found,
            Err(e) => return Err(e),
        };
        let ghost all = models(found@);
        let key = slice_to_vec(address.as_bytes().as_slice());
        let n: usize = found.len();
        let mut i: usize = 0;
        assert(all.skip(0) =~= all);
        while i < n
            invariant
                i <= n == found@.len(),
                all == models(found@),
                key@ == address@,
                batch@ == old(batch)@,
                history(self.rows(), *address, usize::MAX as nat) == Ok::<
                    Seq<(u64, AccountModel)>,
                    ErrorModel,
                >(all),
                best(all, line@) == best(all.skip(i as int), line@),
            decreases n - i,
        {
            let slot: u64 = found[i].0;
            assert(all.skip(i as int)[0].0 == slot);
            if line.keeps(slot) {
                batch.put(CF_ACCOUNT_INDEX, key, slice_to_vec(slot_key(slot).as_slice()));
                return Ok(());
            }
            assert(all.skip(i as int).drop_first() =~= all.skip(i + 1));
            i = i + 1;
        }
        batch.delete(CF_ACCOUNT_INDEX, key);
        Ok(())
    }

    /// Lets every row of the index that points to a version that is not good point to the
    /// newest good one.
    fn rewind_index(&mut self, line: &Line) -> (r: Result<u64, StorageError>)
        ensures
            old(self).reliable() ==> final(self).reliable(),
            changed(
                old(self).reliable(),
                old(self).rows(),
                final(self).rows(),
                outcome(r),
                rewind(old(self).rows(), line@),
            ),
    {
        let w = Walk {
            cf: CF_ACCOUNT_INDEX,
            prefix: Vec::new(),
            start: None,
            key_len: None,
            reverse: false,
            limit: usize::MAX,
        };
        let rows = match self.db.scan(&w) {
            Ok(rows) => rows,
            Err(e) => return Err(e),
        };
        let ghost index = views(rows@);
        proof {
            assert(w.prefix@ =~= Seq::<u8>::empty());
            assert(w@ == index_walk());
            lemma_walk(self.rows(), w@, index);
        }
        let mut batch = StorageWriteBatch::new();
        let n: usize = rows.len();
        let mut count: u64 = 0;
        let mut i: usize = 0;
        assert(index.take(0) =~= Seq::<(Seq<u8>, Seq<u8>)>::empty());
        while i < n
            invariant
                i <= n == rows@.len(),
                index == views(rows@),
                index == walk(old(self).rows(), index_walk()),
                *self == *old(self),
                rewind_ops(self.rows(), index.take(i as int), line@) == Ok::<Seq<Op>, ErrorModel>(
                    batch@,
                ),
                count == batch@.len() <= i,
            decreases n - i,
        {
            let key = rows[i].key.as_slice();
            let value = rows[i].value.as_slice();
            proof {
                assert(index.take(i + 1).drop_last() =~= index.take(i as int));
                assert(index.take(i + 1).last() == rows@[i as int]@);
            }
            if key.len() == 64 && value.len() == 8 {
                let current: u64 = u64_from_be(value, 0);
                assert(value@.subrange(0, 8) =~= value@);
                if !line.keeps(current) {
                    let address = Digest::from_slice(key, 0);
                    proof {
                        assert(key@.subrange(0, 64) =~= key@);
                        lemma_digest_of(address);
                    }
                    match self.best_version(&mut batch, &address, line) {
                        Ok(()) => {
                            count = count + 1;
                        },
                        Err(e) => {
                            proof {
                                if repoint_to_best(self.rows(), address, line@) is Err {
                                    lemma_rewind_stop(self.rows(), index, line@, i + 1);
                                }
                            }
                            return Err(e);
                        },
                    }
                }
            }
            i = i + 1;
        }
        assert(index.take(n as int) =~= index);
        if !batch.is_empty() {
            match self.write(&batch) {
                Ok(()) => {},
                Err(e) => return Err(e),
            }
        }
        Ok(count)
    }

    /// Lets every account be as it was at `max_slot`; says how many rows of the index
    /// that changes.
    pub fn rewind_account_index_to_slot(&mut self, max_slot: u64) -> (r: Result<u64, StorageError>)
        ensures
            old(self).reliable() ==> final(self).reliable(),
            changed(
                old(self).reliable(),
                old(self).rows(),
                final(self).rows(),
                outcome(r),
                rewind(old(self).rows(), LineModel::UpTo(max_slot)),
            ),
    {
        self.rewind_index(&Line::UpTo(max_slot))
    }

    /// Lets every account be as it was on a fork, given by the slots of its ancestry. What
    /// is at or before the least of them is final and stays.
    pub fn rewind_account_index_for_ancestry(&mut self, ancestor_slots: &HashSet<u64>) -> (r:
        Result<u64, StorageError>)
        ensures
            old(self).reliable() ==> final(self).reliable(),
            changed(
                old(self).reliable(),
                old(self).rows(),
                final(self).rows(),
                outcome(r),
                rewind(
                    old(self).rows(),
                    LineModel::Fork(root_of(ancestor_slots@), ancestor_slots@),
                ),
            ),
    {
        let root: u64 = least(ancestor_slots);
        self.rewind_index(&Line::Fork(root, ancestor_slots))
    }

    /// Undoes what was written for some accounts at a slot.
    fn cleanup_slot(&mut self, slot: u64, addresses: &[Digest], line: &Line) -> (r: Result<
        u64,
        StorageError,
    >)
        ensures
            old(self).reliable() ==> final(self).reliable(),
            changed(
                old(self).reliable(),
                old(self).rows(),
                final(self).rows(),
                outcome(r),
                cleanup(old(self).rows(), slot, addresses@, line@),
            ),
    {
        let mut batch = StorageWriteBatch::new();
        let n: usize = addresses.len();
        let mut count: u64 = 0;
        let mut i: usize = 0;
        assert(addresses@.take(0) =~= Seq::<Digest>::empty());
        while i < n
            invariant
                i <= n == addresses@.len(),
                *self == *old(self),
                cleanup_ops(self.rows(), slot, addresses@.take(i as int), line@) == Ok::<
                    Seq<Op>,
                    ErrorModel,
                >(batch@),
                count == i,
            decreases n - i,
        {
            proof {
                assert(addresses@.take(i + 1).drop_last() =~= addresses@.take(i as int));
            }
            batch.delete(CF_ACCOUNTS, slice_to_vec(account_key(&addresses[i], slot).as_slice()));
            match self.best_version(&mut batch, &addresses[i], line) {
                Ok(()) => {
                    count = count + 1;
                },
                Err(e) => {
                    proof {
                        if repoint_to_best(self.rows(), addresses@[i as int], line@) is Err {
                            lemma_cleanup_stop(self.rows(), slot, addresses@, line@, i + 1);
                        }
                    }
                    return Err(e);
                },
            }
            i = i + 1;
        }
        assert(addresses@.take(n as int) =~= addresses@);
        if !batch.is_empty() {
            match self.write(&batch) {
                Ok(()) => {},
                Err(e) => return Err(e),
            }
        }
        Ok(count)
    }

    /// Removes what was written for some accounts at a slot, and lets the index point to
    /// their newest versions at or before the slot's parent.
    pub fn cleanup_failed_slot(&mut self, slot: u64, parent_slot: u64, addresses: &[Digest]) -> (r:
        Result<u64, StorageError>)
        ensures
            old(self).reliable() ==> final(self).reliable(),
            changed(
                old(self).reliable(),
                old(self).rows(),
                final(self).rows(),
                outcome(r),
                cleanup(old(self).rows(), slot, addresses@, LineModel::UpTo(parent_slot)),
            ),
    {
        self.cleanup_slot(slot, addresses, &Line::UpTo(parent_slot))
    }

    /// Removes what was written for some accounts at a slot, and lets the index point to
    /// their newest versions in an ancestry.
    pub fn cleanup_failed_slot_for_ancestry(
        &mut self,
        slot: u64,
        addresses: &[Digest],
        ancestor_slots: &HashSet<u64>,
    ) -> (r: Result<u64, StorageError>)
        ensures
            old(self).reliable() ==> final(self).reliable(),
            changed(
                old(self).reliable(),
                old(self).rows(),
                final(self).rows(),
                outcome(r),
                cleanup(old(self).rows(), slot, addresses@, LineModel::Of(ancestor_slots@)),
            ),
    {
        self.cleanup_slot(slot, addresses, &Line::Of(ancestor_slots))
    }

    fn collect_accounts(&self, part: Option<(u64, u64)>) -> (r: Result<
        Vec<(Digest, Account)>,
        StorageError,
    >)
        requires
            part matches Some((partition, total)) ==> total > 0,
        ensures
            agrees(self.reliable(), outcome(r), accounts(self.rows(), part)),
    {
        let w = Walk {
            cf: CF_ACCOUNT_INDEX,
            prefix: Vec::new(),
            start: None,
            key_len: None,
            reverse: false,
            limit: usize::MAX,
        };
        let rows = match self.db.scan(&w) {
            Ok(rows) => rows,
            Err(e) => return Err(e),
        };
        let ghost index = views(rows@);
        proof {
            assert(w.prefix@ =~= Seq::<u8>::empty());
            assert(w@ == index_walk());
            lemma_walk(self.rows(), w@, index);
        }
        let n: usize = rows.len();
        let mut results: Vec<(Digest, Account)> = Vec::new();
        let mut i: usize = 0;
        assert(models(results@) =~= Seq::<(Digest, AccountModel)>::empty());
        assert(index.take(0) =~= Seq::<(Seq<u8>, Seq<u8>)>::empty());
        while i < n
            invariant
                i <= n == rows@.len(),
                part matches Some((partition, total)) ==> total > 0,
                index == views(rows@),
                index == walk(self.rows(), index_walk()),
                accounts_in(self.rows(), index.take(i as int), part) == Ok::<
                    Seq<(Digest, AccountModel)>,
                    ErrorModel,
                >(models(results@)),
            decreases n - i,
        {
            let key = rows[i].key.as_slice();
            proof {
                assert(index.take(i + 1).drop_last() =~= index.take(i as int));
                assert(index.take(i + 1).last() == rows@[i as int]@);
            }
            let wanted = key.len() == 64 && match part {
                Some((partition, total)) => key[0] as u64 % total == partition,
                None => true,
            };
            if wanted {
                let address = Digest::from_slice(key, 0);
                proof {
                    assert(key@.subrange(0, 64) =~= key@);
                    lemma_digest_of(address);
                }
                match self.get_account(&address) {
                    Ok(Some(account)) => {
                        let ghost before = results@;
                        results.push((address, account));
                        assert(models(results@) =~= models(before).push(
                            (address, account.model()),
                        ));
                    },
                    Ok(None) => {},
                    Err(e) => {
                        proof {
                            if latest_account(self.rows(), address) is Err {
                                lemma_accounts_stop(self.rows(), index, part, i + 1);
                            }
                        }
                        return Err(e);
                    },
                }
            }
            i = i + 1;
        }
        assert(index.take(n as int) =~= index);
        Ok(results)
    }

    /// The accounts whose addresses begin with a byte that leaves the remainder
    /// `partition` when divided by `total_partitions`.
    pub fn get_accounts_in_partition(&self, partition: u64, total_partitions: u64) -> (r: Result<
        Vec<(Digest, Account)>,
        StorageError,
    >)
        requires
            total_partitions > 0,
        ensures
            agrees(
                self.reliable(),
                outcome(r),
                accounts(self.rows(), Some((partition, total_partitions))),
            ),
    {
        self.collect_accounts(Some((partition, total_partitions)))
    }

    /// The latest versions of all accounts.
    pub fn get_all_accounts(&self) -> (r: Result<Vec<(Digest, Account)>, StorageError>)
        ensures
            agrees(self.reliable(), outcome(r), accounts(self.rows(), None)),
    {
        self.collect_accounts(None)
    }
}

/// The least slot of a set, or 0 where it is empty.
fn least(slots: &HashSet<u64>) -> (r: u64)
    ensures
        r == root_of(slots@),
{
    broadcast use vstd::std_specs::hash::group_hash_axioms;

    let mut r: u64 = 0;
    let mut any = false;
    let ghost all = slots@;
    for x in it: slots.iter()
        invariant
            it.seq().unref().to_set() == all,
            it.seq().len() == all.len(),
            any == (it.index() > 0),
            any ==> all.contains(r),
            !any ==> r == 0,
            forall|y: u64|
                #[trigger] all.contains(y) ==> (any && r <= y) || exists|i: int|
                    it.index() <= i < it.seq().len() && it.seq().unref()[i] == y,
    {
        proof {
            assert(it.seq().unref()[it.index() as int] == *x);
            assert(it.seq().unref().to_set().contains(*x));
        }
        if !any || *x < r {
            r = *x;
        }
        any = true;
    }
    proof {
        lemma_root(all, r, any);
    }
    r
}

proof fn lemma_root(slots: Set<u64>, least: u64, any: bool)
    requires
        slots.finite(),
        any == (slots.len() > 0),
        any ==> slots.contains(least),
        any ==> forall|x: u64| slots.contains(x) ==> least <= x,
        !any ==> least == 0,
    ensures
        least == root_of(slots),
{
    if any {
        let c = choose|s: u64| slots.contains(s) && forall|x: u64| slots.contains(x) ==> s <= x;
        assert(slots.contains(least) && forall|x: u64| slots.contains(x) ==> least <= x);
        assert(least <= c && c <= least);
    }
}

proof fn lemma_rewind_stop(rows: Rows, index: Seq<(Seq<u8>, Seq<u8>)>, line: LineModel, n: int)
    requires
        0 <= n <= index.len(),
        rewind_ops(rows, index.take(n), line) is Err,
    ensures
        rewind_ops(rows, index, line) == rewind_ops(rows, index.take(n), line),
    decreases index.len(),
{
    if n == index.len() {
        assert(index.take(n) =~= index);
    } else {
        assert(index.drop_last().take(n) =~= index.take(n));
        lemma_rewind_stop(rows, index.drop_last(), line, n);
    }
}

proof fn lemma_cleanup_stop(
    rows: Rows,
    slot: u64,
    addresses: Seq<Digest>,
    line: LineModel,
    n: int,
)
    requires
        0 <= n <= addresses.len(),
        cleanup_ops(rows, slot, addresses.take(n), line) is Err,
    ensures
        cleanup_ops(rows, slot, addresses, line) == cleanup_ops(rows, slot, addresses.take(n), line),
    decreases addresses.len(),
{
    if n == addresses.len() {
        assert(addresses.take(n) =~= addresses);
    } else {
        assert(addresses.drop_last().take(n) =~= addresses.take(n));
        lemma_cleanup_stop(rows, slot, addresses.drop_last(), line, n);
    }
}

proof fn lemma_accounts_stop(
    rows: Rows,
    index: Seq<(Seq<u8>, Seq<u8>)>,
    part: Option<(u64, u64)>,
    n: int,
)
    requires
        0 <= n <= index.len(),
        accounts_in(rows, index.take(n), part) is Err,
    ensures
        accounts_in(rows, index, part) == accounts_in(rows, index.take(n), part),
    decreases index.len(),
{
    if n == index.len() {
        assert(index.take(n) =~= index);
    } else {
        assert(index.drop_last().take(n) =~= index.take(n));
        lemma_accounts_stop(rows, index.drop_last(), part, n);
    }
}

/// What the changes that write a version of an account do: the version is there, the
/// index points to it, and no other version and no other row of the index has changed.
pub proof fn lemma_account_ops(
    rows: Rows,
    address: Digest,
    slot: u64,
    account: AccountModel,
    old: Option<Digest>,
)
    requires
        <Account as Codec>::fits(account),
    ensures
        ({
            let ops = account_ops(address, slot, account, old);
            let after = apply(rows, ops->Ok_0);
            &&& ops is Ok
            &&& latest_account(after, address) == Ok::<Option<AccountModel>, ErrorModel>(
                Some(account),
            )
            &&& account_at(after, address, slot) == Ok::<Option<AccountModel>, ErrorModel>(
                Some(account),
            )
            &&& forall|a: Digest, s: u64|
                a != address || s != slot ==> #[trigger] account_at(after, a, s) == account_at(
                    rows,
                    a,
                    s,
                )
            &&& forall|a: Digest|
                a != address ==> #[trigger] latest_account(after, a) == latest_account(rows, a)
        }),
{
    let ops = account_ops(address, slot, account, old)->Ok_0;
    let bytes = <Account as Codec>::layout(account);
    let first = seq![
        Op::Put(CF_ACCOUNTS, account_bytes(address, slot), bytes),
        Op::Put(CF_ACCOUNT_INDEX, address@, slot_bytes(slot)),
    ];
    let lists = index_ops(address, old, owner_of(account));
    let after = apply(rows, ops);
    assert(ops =~= first + lists);
    assert forall|i: int| 0 <= i < lists.len() implies !touches(
        #[trigger] lists[i],
        CF_ACCOUNTS,
        account_bytes(address, slot),
    ) && !touches(lists[i], CF_ACCOUNT_INDEX, address@) by {}
    assert forall|i: int| 1 <= i < ops.len() implies !touches(
        #[trigger] ops[i],
        CF_ACCOUNTS,
        account_bytes(address, slot),
    ) by {
        if i >= 2 {
            assert(ops[i] == lists[i - 2]);
        }
    }
    lemma_apply_put(rows, ops, 0);
    assert forall|i: int| 2 <= i < ops.len() implies !touches(
        #[trigger] ops[i],
        CF_ACCOUNT_INDEX,
        address@,
    ) by {
        assert(ops[i] == lists[i - 2]);
    }
    lemma_apply_put(rows, ops, 1);
    decoded_inverts_encoded::<Account>(account);
    lemma_byte_ranges();
    lemma_be_bytes_len(slot as nat, 8);
    lemma_be_value_of_bytes(slot as nat, 8);
    assert forall|a: Digest, s: u64| a != address || s != slot implies #[trigger] account_at(
        after,
        a,
        s,
    ) == account_at(rows, a, s) by {
        account_keys_are_distinct(a, s, address, slot);
        assert forall|i: int| 0 <= i < ops.len() implies !touches(
            #[trigger] ops[i],
            CF_ACCOUNTS,
            account_bytes(a, s),
        ) by {
            if i >= 2 {
                assert(ops[i] == lists[i - 2]);
            }
        }
        lemma_apply_untouched(rows, ops, CF_ACCOUNTS, account_bytes(a, s));
    }
    assert forall|a: Digest| a != address implies #[trigger] latest_account(after, a)
        == latest_account(rows, a) by {
        if a@ == address@ {
            lemma_digest_ext(a, address);
        }
        assert forall|i: int| 0 <= i < ops.len() implies !touches(
            #[trigger] ops[i],
            CF_ACCOUNT_INDEX,
            a@,
        ) by {
            if i >= 2 {
                assert(ops[i] == lists[i - 2]);
            }
        }
        lemma_apply_untouched(rows, ops, CF_ACCOUNT_INDEX, a@);
        if raw(rows, CF_ACCOUNT_INDEX, a@) is Some {
            let row = rows[(CF_ACCOUNT_INDEX, a@)];
            if index_slot(row) is Ok {
                assert(account_at(after, a, index_slot(row)->Ok_0) == account_at(
                    rows,
                    a,
                    index_slot(row)->Ok_0,
                ));
            }
        }
    }
}

/// A version that was written is the latest one, and is what is read as of its slot; no
/// other account and no other version has changed.
pub proof fn written_account_is_latest(
    rows: Rows,
    address: Digest,
    slot: u64,
    account: AccountModel,
)
    requires
        latest_account(rows, address) is Ok,
        <Account as Codec>::fits(account),
    ensures
        ({
            let ops = account_write(rows, address, slot, account);
            let after = apply(rows, ops->Ok_0);
            &&& ops is Ok
            &&& latest_account(after, address) == Ok::<Option<AccountModel>, ErrorModel>(
                Some(account),
            )
            &&& account_at(after, address, slot) == Ok::<Option<AccountModel>, ErrorModel>(
                Some(account),
            )
            &&& forall|a: Digest, s: u64|
                a != address || s != slot ==> #[trigger] account_at(after, a, s) == account_at(
                    rows,
                    a,
                    s,
                )
            &&& forall|a: Digest|
                a != address ==> #[trigger] latest_account(after, a) == latest_account(rows, a)
        }),
{
    let old = old_owner(latest_account(rows, address)->Ok_0);
    lemma_account_ops(rows, address, slot, account, old);
}

/// Versions are given from the newest on.
pub proof fn history_is_newest_first(
    rows: Rows,
    address: Digest,
    found: Seq<(Seq<u8>, Seq<u8>)>,
    limit: nat,
    i: int,
    j: int,
)
    requires
        walked(rows, history_walk(address, limit), found),
        versions(found) is Ok,
        0 <= i < j < versions(found)->Ok_0.len(),
    ensures
        versions(found)->Ok_0[i].0 >= versions(found)->Ok_0[j].0,
{
    lemma_version(found, i);
    lemma_version(found, j);
    let x = found[i].0;
    let y = found[j].0;
    assert(has_prefix(x, address@) && has_prefix(y, address@));
    let a = be_value(x.subrange(64, 72));
    let b = be_value(y.subrange(64, 72));
    lemma_be_bytes_of_value(x.subrange(64, 72));
    lemma_be_bytes_of_value(y.subrange(64, 72));
    lemma_byte_ranges();
    assert(comes_before(true, x, y));
    if a < b {
        let p = x.subrange(0, 72);
        let q = y.subrange(0, 72);
        assert(x =~= p + x.subrange(72, x.len() as int));
        assert(y =~= q + y.subrange(72, y.len() as int));
        assert(p =~= address@ + x.subrange(64, 72)) by {
            assert(x.subrange(0, 64) == address@);
            assert(p =~= x.subrange(0, 64) + x.subrange(64, 72));
        }
        assert(q =~= address@ + y.subrange(64, 72)) by {
            assert(y.subrange(0, 64) == address@);
            assert(q =~= y.subrange(0, 64) + y.subrange(64, 72));
        }
        lemma_be_bytes_order(a, b, 8);
        lemma_lex_common_prefix(address@, x.subrange(64, 72), y.subrange(64, 72));
        lemma_lex_irreflexive(p);
        lemma_lex_append(p, q, x.subrange(72, x.len() as int), y.subrange(72, y.len() as int));
        lemma_lex_transitive(x, y, x);
        lemma_lex_irreflexive(x);
    }
}

proof fn lemma_version(found: Seq<(Seq<u8>, Seq<u8>)>, i: int)
    requires
        versions(found) is Ok,
        0 <= i < versions(found)->Ok_0.len(),
    ensures
        i < found.len(),
        found[i].0.len() >= 72,
        versions(found)->Ok_0[i].0 == be_value(found[i].0.subrange(64, 72)) as u64,
        decoded::<Account>(found[i].1) == Ok::<AccountModel, ErrorModel>(
            versions(found)->Ok_0[i].1,
        ),
        versions(found)->Ok_0.len() <= found.len(),
    decreases found.len(),
{
    if found.len() > 0 {
        let front = found.drop_last();
        let so_far = versions(front)->Ok_0;
        lemma_version_count(front);
        if i < so_far.len() {
            lemma_version(front, i);
            assert(front[i] == found[i]);
            assert(versions(found)->Ok_0[i] == so_far[i]);
        }
    }
}

proof fn lemma_version_count(found: Seq<(Seq<u8>, Seq<u8>)>)
    requires
        versions(found) is Ok,
    ensures
        versions(found)->Ok_0.len() <= found.len(),
    decreases found.len(),
{
    if found.len() > 0 {
        lemma_version_count(found.drop_last());
    }
}

/// The best version is a good one, and every version before it in the list is not.
pub proof fn best_is_first_good(found: Seq<(u64, AccountModel)>, line: LineModel)
    ensures
        match best(found, line) {
            Some(slot) => exists|i: int|
                {
                    &&& 0 <= i < found.len()
                    &&& (#[trigger] found[i]).0 == slot
                    &&& keeps(line, slot)
                    &&& forall|j: int| 0 <= j < i ==> !keeps(line, (#[trigger] found[j]).0)
                },
            None => forall|i: int| 0 <= i < found.len() ==> !keeps(line, (#[trigger] found[i]).0),
        },
    decreases found.len(),
{
    if found.len() > 0 && !keeps(line, found[0].0) {
        let rest = found.drop_first();
        best_is_first_good(rest, line);
        if best(rest, line) is Some {
            let slot = best(rest, line)->0;
            let i = choose|i: int|
                {
                    &&& 0 <= i < rest.len()
                    &&& (#[trigger] rest[i]).0 == slot
                    &&& keeps(line, slot)
                    &&& forall|j: int| 0 <= j < i ==> !keeps(line, (#[trigger] rest[j]).0)
                };
            assert(found[i + 1] == rest[i]);
            assert forall|j: int| 0 <= j < i + 1 implies !keeps(line, (#[trigger] found[j]).0) by {
                if j > 0 {
                    assert(found[j] == rest[j - 1]);
                }
            }
        } else {
            assert forall|i: int| 0 <= i < found.len() implies !keeps(
                line,
                (#[trigger] found[i]).0,
            ) by {
                if i > 0 {
                    assert(found[i] == rest[i - 1]);
                }
            }
        }
    } else if found.len() > 0 {
        assert(found[0].0 == best(found, line)->0);
    }
}

/// The value of a row of the index that points to a version.
pub open spec fn pointer(slot: Option<u64>) -> Option<Seq<u8>> {
    match slot {
        Some(s) => Some(slot_bytes(s)),
        None => None,
    }
}

/// The row of an account in the index once it points to the newest good version.
pub open spec fn best_pointer(rows: Rows, address: Digest, line: LineModel) -> Option<Seq<u8>> {
    pointer(best(history(rows, address, usize::MAX as nat)->Ok_0, line))
}

/// Among some rows of the index there is one for a key, and it is stale.
pub open spec fn has_stale(index: Seq<(Seq<u8>, Seq<u8>)>, key: Seq<u8>, line: LineModel) -> bool {
    exists|i: int| 0 <= i < index.len() && (#[trigger] index[i]).0 == key && is_stale(index[i], line)
}

proof fn lemma_rewind_rows(rows: Rows, index: Seq<(Seq<u8>, Seq<u8>)>, line: LineModel)
    requires
        rewind_ops(rows, index, line) is Ok,
    ensures
        ({
            let after = apply(rows, rewind_ops(rows, index, line)->Ok_0);
            &&& forall|cf: Cf, k: Seq<u8>| cf != CF_ACCOUNT_INDEX ==> #[trigger] raw(
                after,
                cf,
                k,
            ) == raw(
                rows,
                cf,
                k,
            )
            &&& forall|k: Seq<u8>| #[trigger] raw(after, CF_ACCOUNT_INDEX, k) == if has_stale(
                index,
                k,
                line,
            ) {
                best_pointer(rows, digest_of(k), line)
            } else {
                raw(rows, CF_ACCOUNT_INDEX, k)
            }
        }),
    decreases index.len(),
{
    let ops = rewind_ops(rows, index, line)->Ok_0;
    let after = apply(rows, ops);
    if index.len() > 0 {
        let front = index.drop_last();
        let last = index.last();
        lemma_rewind_rows(rows, front, line);
        let earlier = rewind_ops(rows, front, line)->Ok_0;
        let before = apply(rows, earlier);
        if is_stale(last, line) {
            let op = repoint_to_best(rows, digest_of(last.0), line)->Ok_0;
            lemma_digest_bytes(last.0);
            assert(ops.drop_last() =~= earlier);
            assert(ops.last() == op);
            assert(after == apply_op(before, op));
        }
        assert forall|k: Seq<u8>| #[trigger] raw(after, CF_ACCOUNT_INDEX, k) == if has_stale(
            index,
            k,
            line,
        ) {
            best_pointer(rows, digest_of(k), line)
        } else {
            raw(rows, CF_ACCOUNT_INDEX, k)
        } by {
            assert(raw(before, CF_ACCOUNT_INDEX, k) == if has_stale(front, k, line) {
                best_pointer(rows, digest_of(k), line)
            } else {
                raw(rows, CF_ACCOUNT_INDEX, k)
            });
            if has_stale(front, k, line) {
                let i = choose|i: int|
                    0 <= i < front.len() && (#[trigger] front[i]).0 == k && is_stale(
                        front[i],
                        line,
                    );
                assert(index[i] == front[i]);
            }
            if is_stale(last, line) && last.0 == k {
                assert(index[index.len() - 1].0 == k);
            } else if has_stale(index, k, line) {
                let i = choose|i: int|
                    0 <= i < index.len() && (#[trigger] index[i]).0 == k && is_stale(
                        index[i],
                        line,
                    );
                assert(front[i] == index[i]);
            }
        }
        assert forall|cf: Cf, k: Seq<u8>| cf != CF_ACCOUNT_INDEX implies #[trigger] raw(after, cf, k)
            == raw(rows, cf, k) by {
            assert(raw(before, cf, k) == raw(rows, cf, k));
        }
    }
}

/// After a rewind every row of the index that names an account points to a good version:
/// the one it pointed to, or the newest good one. Rows that pointed to
/// a good version are as they were, and nothing outside the index has changed.
pub proof fn rewound_index_is_good(
    rows: Rows,
    index: Seq<(Seq<u8>, Seq<u8>)>,
    line: LineModel,
    key: Seq<u8>,
)
    requires
        walked(rows, index_walk(), index),
        index.len() < usize::MAX,
        rewind_ops(rows, index, line) is Ok,
        key.len() == 64,
    ensures
        ({
            let after = apply(rows, rewind_ops(rows, index, line)->Ok_0);
            let row = raw(rows, CF_ACCOUNT_INDEX, key);
            let new = raw(after, CF_ACCOUNT_INDEX, key);
            &&& row is None ==> new is None
            &&& row is Some && !is_stale((key, row->0), line) ==> new == row
            &&& row is Some && is_stale((key, row->0), line) ==> new == best_pointer(
                rows,
                digest_of(key),
                line,
            )
            &&& new is Some && new->0.len() == 8 ==> keeps(line, be_value(new->0) as u64)
            &&& forall|cf: Cf, k: Seq<u8>| cf != CF_ACCOUNT_INDEX ==> #[trigger] raw(
                after,
                cf,
                k,
            ) == raw(
                rows,
                cf,
                k,
            )
        }),
{
    lemma_rewind_rows(rows, index, line);
    let after = apply(rows, rewind_ops(rows, index, line)->Ok_0);
    let row = raw(rows, CF_ACCOUNT_INDEX, key);
    let new = raw(after, CF_ACCOUNT_INDEX, key);
    assert(has_prefix(key, Seq::empty())) by {
        assert(key.subrange(0, 0) =~= Seq::<u8>::empty());
    }
    if has_stale(index, key, line) {
        let i = choose|i: int|
            0 <= i < index.len() && (#[trigger] index[i]).0 == key && is_stale(index[i], line);
        assert(rows.contains_key((CF_ACCOUNT_INDEX, index[i].0)));
        let found = history(rows, digest_of(key), usize::MAX as nat)->Ok_0;
        best_is_first_good(found, line);
        if best(found, line) is Some {
            let slot = best(found, line)->0;
            lemma_byte_ranges();
            lemma_be_value_of_bytes(slot as nat, 8);
        }
    } else if row is Some {
        assert(rows.contains_key((CF_ACCOUNT_INDEX, key)) && on_walk(index_walk(), key));
        assert(reached(index_walk(), index, key));
        let i = choose|i: int| 0 <= i < index.len() && (#[trigger] index[i]).0 == key;
        assert(index[i] == (key, row->0));
    }
}

/// Once a slot is undone for some accounts, none of them has a version at it, and the
/// index points to the newest good version of each; nothing else has changed.
pub proof fn cleanup_undoes_slot(
    rows: Rows,
    slot: u64,
    addresses: Seq<Digest>,
    line: LineModel,
)
    requires
        cleanup_ops(rows, slot, addresses, line) is Ok,
    ensures
        ({
            let after = apply(rows, cleanup_ops(rows, slot, addresses, line)->Ok_0);
            &&& forall|i: int|
                0 <= i < addresses.len() ==> {
                    let a = #[trigger] addresses[i];
                    &&& raw(after, CF_ACCOUNTS, account_bytes(a, slot)) is None
                    &&& raw(after, CF_ACCOUNT_INDEX, a@) == best_pointer(rows, a, line)
                }
            &&& forall|cf: Cf, k: Seq<u8>|
                (forall|i: int|
                    0 <= i < addresses.len() ==> {
                        let a = #[trigger] addresses[i];
                        &&& (cf == CF_ACCOUNTS ==> k != account_bytes(a, slot))
                        &&& (cf == CF_ACCOUNT_INDEX ==> k != a@)
                    }) ==> #[trigger] raw(after, cf, k) == raw(rows, cf, k)
        }),
    decreases addresses.len(),
{
    if addresses.len() > 0 {
        let front = addresses.drop_last();
        let last = addresses.last();
        cleanup_undoes_slot(rows, slot, front, line);
        let earlier = cleanup_ops(rows, slot, front, line)->Ok_0;
        let before = apply(rows, earlier);
        let gone = Op::Delete(CF_ACCOUNTS, account_bytes(last, slot));
        let op = repoint_to_best(rows, last, line)->Ok_0;
        let ops = cleanup_ops(rows, slot, addresses, line)->Ok_0;
        let after = apply(rows, ops);
        assert(ops.drop_last() =~= earlier.push(gone));
        assert(earlier.push(gone).drop_last() =~= earlier);
        assert(apply(rows, earlier.push(gone)) == apply_op(before, gone));
        assert(after == apply_op(apply_op(before, gone), op));
        assert forall|i: int| 0 <= i < addresses.len() implies ({
            let a = #[trigger] addresses[i];
            &&& raw(after, CF_ACCOUNTS, account_bytes(a, slot)) is None
            &&& raw(after, CF_ACCOUNT_INDEX, a@) == best_pointer(rows, a, line)
        }) by {
            let a = addresses[i];
            if i < front.len() {
                assert(front[i] == a);
                if a@ == last@ {
                    lemma_digest_ext(a, last);
                }
            }
        }
        assert forall|cf: Cf, k: Seq<u8>|
            (forall|i: int|
                0 <= i < addresses.len() ==> {
                    let a = #[trigger] addresses[i];
                    &&& (cf == CF_ACCOUNTS ==> k != account_bytes(a, slot))
                    &&& (cf == CF_ACCOUNT_INDEX ==> k != a@)
                }) implies #[trigger] raw(after, cf, k) == raw(rows, cf, k) by {
            assert(addresses[addresses.len() - 1] == last);
            assert forall|i: int| 0 <= i < front.len() implies ({
                let a = #[trigger] front[i];
                &&& (cf == CF_ACCOUNTS ==> k != account_bytes(a, slot))
                &&& (cf == CF_ACCOUNT_INDEX ==> k != a@)
            }) by {
                assert(front[i] == addresses[i]);
            }
            assert(raw(before, cf, k) == raw(rows, cf, k));
        }
    }
}

/// The store has this version of the account.
pub open spec fn has_version(rows: Rows, address: Digest, slot: u64) -> bool {
    rows.contains_key((CF_ACCOUNTS, account_bytes(address, slot)))
}

/// What is kept under the address of an account are versions of it.
pub open spec fn only_versions(rows: Rows, address: Digest) -> bool {
    forall|k: Seq<u8>| #[trigger]
        rows.contains_key((CF_ACCOUNTS, k)) && has_prefix(k, address@) ==> exists|slot: u64|
            k == #[trigger] account_bytes(address, slot)
}

/// The version is good, and no good one is newer.
pub open spec fn newest_good(rows: Rows, address: Digest, line: LineModel, slot: u64) -> bool {
    &&& has_version(rows, address, slot)
    &&& keeps(line, slot)
    &&& forall|s: u64| #[trigger] has_version(rows, address, s) && keeps(line, s) ==> s <= slot
}

/// The row of an account in the index points to its newest good version, and is not there
/// if no version is good.
pub open spec fn points_to_newest(rows: Rows, address: Digest, line: LineModel) -> bool {
    match raw(rows, CF_ACCOUNT_INDEX, address@) {
        Some(bytes) => exists|slot: u64| #[trigger]
            newest_good(rows, address, line, slot) && bytes == slot_bytes(slot),
        None => forall|s: u64| #[trigger] has_version(rows, address, s) ==> !keeps(line, s),
    }
}

proof fn lemma_all_versions(found: Seq<(Seq<u8>, Seq<u8>)>)
    requires
        versions(found) is Ok,
        forall|i: int| 0 <= i < found.len() ==> (#[trigger] found[i]).0.len() >= 72,
    ensures
        versions(found)->Ok_0.len() == found.len(),
    decreases found.len(),
{
    if found.len() > 0 {
        let front = found.drop_last();
        assert forall|i: int| 0 <= i < front.len() implies (#[trigger] front[i]).0.len() >= 72 by {
            assert(front[i] == found[i]);
        }
        assert(found[found.len() - 1].0.len() >= 72);
        lemma_all_versions(front);
    }
}

/// The best of all versions of an account is its newest good one.
#[verifier::rlimit(40)]
pub proof fn best_is_newest_good(rows: Rows, address: Digest, line: LineModel)
    requires
        rows.dom().finite(),
        only_versions(rows, address),
        history(rows, address, usize::MAX as nat) is Ok,
        history(rows, address, usize::MAX as nat)->Ok_0.len() < usize::MAX,
    ensures
        match best(history(rows, address, usize::MAX as nat)->Ok_0, line) {
            Some(slot) => newest_good(rows, address, line, slot),
            None => forall|s: u64| #[trigger] has_version(rows, address, s) ==> !keeps(line, s),
        },
{
    let w = history_walk(address, usize::MAX as nat);
    let found = walk(rows, w);
    finite_rows_have_walks(rows, w);
    let list = versions(found)->Ok_0;
    lemma_byte_ranges();
    assert forall|i: int| 0 <= i < found.len() implies (#[trigger] found[i]).0.len() >= 72
        && exists|s: u64| found[i].0 == #[trigger] account_bytes(address, s) by {
        assert(rows.contains_key((w.cf, found[i].0)) && on_walk(w, found[i].0));
        let s = choose|s: u64| found[i].0 == #[trigger] account_bytes(address, s);
        lemma_be_bytes_len(s as nat, 8);
    }
    lemma_all_versions(found);
    best_is_first_good(list, line);
    // Each version in the list is one that the store has.
    assert forall|i: int| 0 <= i < list.len() implies has_version(
        rows,
        address,
        (#[trigger] list[i]).0,
    ) by {
        lemma_version(found, i);
        assert(rows.contains_key((w.cf, found[i].0)));
        let s = choose|s: u64| found[i].0 == #[trigger] account_bytes(address, s);
        lemma_be_bytes_len(s as nat, 8);
        lemma_be_value_of_bytes(s as nat, 8);
        assert(account_bytes(address, s).subrange(64, 72) =~= be_bytes(s as nat, 8));
    }
    // Each version that the store has is in the list.
    assert forall|s: u64| #[trigger] has_version(rows, address, s) implies exists|i: int|
        0 <= i < list.len() && (#[trigger] list[i]).0 == s by {
        let k = account_bytes(address, s);
        lemma_be_bytes_len(s as nat, 8);
        assert(k.subrange(0, 64) =~= address@);
        if s < u64::MAX {
            account_keys_are_ordered(address, s, u64::MAX);
            if lex_less(account_bytes(address, u64::MAX), k) {
                lemma_lex_transitive(k, account_bytes(address, u64::MAX), k);
            }
        }
        lemma_lex_irreflexive(k);
        assert(rows.contains_key((w.cf, k)) && on_walk(w, k));
        assert(reached(w, found, k));
        let i = choose|i: int| 0 <= i < found.len() && (#[trigger] found[i]).0 == k;
        lemma_version(found, i);
        lemma_be_value_of_bytes(s as nat, 8);
        assert(k.subrange(64, 72) =~= be_bytes(s as nat, 8));
        assert(list[i].0 == s);
    }
    if best(list, line) is Some {
        let slot = best(list, line)->0;
        let j = choose|i: int|
            {
                &&& 0 <= i < list.len()
                &&& (#[trigger] list[i]).0 == slot
                &&& keeps(line, slot)
                &&& forall|j: int| 0 <= j < i ==> !keeps(line, (#[trigger] list[j]).0)
            };
        assert(has_version(rows, address, list[j].0));
        assert forall|s: u64| #[trigger] has_version(rows, address, s) && keeps(
            line,
            s,
        ) implies s <= slot by {
            let i = choose|i: int| 0 <= i < list.len() && (#[trigger] list[i]).0 == s;
            if j < i {
                history_is_newest_first(rows, address, found, usize::MAX as nat, j, i);
            }
        }
    }
}

/// Walks over the same rows of a column family have the same outcome.
proof fn lemma_same_walk(a: Rows, b: Rows, w: WalkModel)
    requires
        a.dom().finite(),
        b.dom().finite(),
        forall|k: Seq<u8>| #[trigger] raw(a, w.cf, k) == raw(b, w.cf, k),
    ensures
        walk(a, w) == walk(b, w),
{
    finite_rows_have_walks(a, w);
    let out = walk(a, w);
    assert forall|i: int| 0 <= i < out.len() implies {
        let row = #[trigger] out[i];
        b.contains_key((w.cf, row.0)) && b[(w.cf, row.0)] == row.1 && on_walk(w, row.0)
    } by {
        assert(raw(a, w.cf, out[i].0) == raw(b, w.cf, out[i].0));
    }
    assert forall|k: Seq<u8>|
        #[trigger] b.contains_key((w.cf, k)) && on_walk(w, k) implies reached(w, out, k) by {
        assert(raw(a, w.cf, k) == raw(b, w.cf, k));
        assert(a.contains_key((w.cf, k)));
    }
    lemma_walk(b, w, out);
}

/// Writing a version of an account and then undoing its slot restores every read of
/// accounts: the latest version, the version of any slot and the history of every account.
/// Before, the account has no version of that slot, and the index points to its newest
/// good version.
#[verifier::rlimit(40)]
pub proof fn cleanup_undoes_write(
    rows: Rows,
    address: Digest,
    slot: u64,
    account: AccountModel,
    line: LineModel,
)
    requires
        rows.dom().finite(),
        <Account as Codec>::fits(account),
        latest_account(rows, address) is Ok,
        only_versions(rows, address),
        points_to_newest(rows, address, line),
        !has_version(rows, address, slot),
        !keeps(line, slot),
        ({
            let written = apply(rows, account_write(rows, address, slot, account)->Ok_0);
            let all = history(written, address, usize::MAX as nat);
            all is Ok && all->Ok_0.len() < usize::MAX
        }),
    ensures
        ({
            let written = apply(rows, account_write(rows, address, slot, account)->Ok_0);
            let undo = cleanup_ops(written, slot, seq![address], line);
            let after = apply(written, undo->Ok_0);
            &&& undo is Ok
            &&& forall|a: Digest| #[trigger] latest_account(after, a) == latest_account(rows, a)
            &&& forall|a: Digest, s: u64| #[trigger]
                account_at(after, a, s) == account_at(rows, a, s)
            &&& forall|a: Digest, limit: nat| #[trigger]
                history(after, a, limit) == history(rows, a, limit)
            &&& walk(after, index_walk()) == walk(rows, index_walk())
        }),
{
    let ops = account_write(rows, address, slot, account)->Ok_0;
    let old = old_owner(latest_account(rows, address)->Ok_0);
    let lists = index_ops(address, old, owner_of(account));
    let written = apply(rows, ops);
    let undo = cleanup_ops(written, slot, seq![address], line);
    let after = apply(written, undo->Ok_0);
    changes_keep_rows_finite(rows, ops);
    changes_keep_rows_finite(written, undo->Ok_0);
    assert(forall|i: int| 2 <= i < ops.len() ==> #[trigger] ops[i] == lists[i - 2]);
    // The write touches one version and one row of the index.
    assert forall|k: Seq<u8>| k != account_bytes(address, slot) implies #[trigger] raw(
        written,
        CF_ACCOUNTS,
        k,
    ) == raw(rows, CF_ACCOUNTS, k) by {
        lemma_apply_untouched(rows, ops, CF_ACCOUNTS, k);
    }
    assert forall|k: Seq<u8>| k != address@ implies #[trigger] raw(written, CF_ACCOUNT_INDEX, k)
        == raw(rows, CF_ACCOUNT_INDEX, k) by {
        lemma_apply_untouched(rows, ops, CF_ACCOUNT_INDEX, k);
    }
    assert forall|s: u64| s != slot implies #[trigger] has_version(written, address, s)
        == has_version(rows, address, s) by {
        account_keys_are_distinct(address, s, address, slot);
        assert(raw(written, CF_ACCOUNTS, account_bytes(address, s)) == raw(
            rows,
            CF_ACCOUNTS,
            account_bytes(address, s),
        ));
    }
    assert(only_versions(written, address)) by {
        assert forall|k: Seq<u8>| #[trigger]
            written.contains_key((CF_ACCOUNTS, k)) && has_prefix(k, address@) implies exists|s: u64|
            k == #[trigger] account_bytes(address, s) by {
            if k != account_bytes(address, slot) {
                assert(raw(written, CF_ACCOUNTS, k) == raw(rows, CF_ACCOUNTS, k));
                assert(rows.contains_key((CF_ACCOUNTS, k)));
            }
        }
    }
    best_is_newest_good(written, address, line);
    let found = best(history(written, address, usize::MAX as nat)->Ok_0, line);
    // The newest good version is what it was.
    assert(pointer(found) == raw(rows, CF_ACCOUNT_INDEX, address@)) by {
        match raw(rows, CF_ACCOUNT_INDEX, address@) {
            Some(bytes) => {
                let s = choose|s: u64| #[trigger]
                    newest_good(rows, address, line, s) && bytes == slot_bytes(s);
                assert(has_version(written, address, s));
                assert(found is Some);
                assert(has_version(rows, address, found->0));
                assert(found->0 == s);
            },
            None => {
                if found is Some {
                    assert(has_version(rows, address, found->0));
                }
            },
        }
    }
    assert(seq![address].drop_last() =~= Seq::<Digest>::empty());
    reveal_with_fuel(cleanup_ops, 2);
    cleanup_undoes_slot(written, slot, seq![address], line);
    let one = seq![address];
    assert(one[0] == address);
    assert forall|k: Seq<u8>| #[trigger] raw(after, CF_ACCOUNTS, k) == raw(
        rows,
        CF_ACCOUNTS,
        k,
    ) by {
        if k == account_bytes(address, slot) {
            assert(raw(rows, CF_ACCOUNTS, k) is None);
        } else {
            assert(raw(written, CF_ACCOUNTS, k) == raw(rows, CF_ACCOUNTS, k));
        }
    }
    assert forall|k: Seq<u8>| #[trigger] raw(after, CF_ACCOUNT_INDEX, k) == raw(
        rows,
        CF_ACCOUNT_INDEX,
        k,
    ) by {
        if k != address@ {
            assert(raw(written, CF_ACCOUNT_INDEX, k) == raw(rows, CF_ACCOUNT_INDEX, k));
        }
    }
    assert forall|a: Digest, s: u64| #[trigger] account_at(after, a, s) == account_at(rows, a, s) by {
        assert(raw(after, CF_ACCOUNTS, account_bytes(a, s)) == raw(
            rows,
            CF_ACCOUNTS,
            account_bytes(a, s),
        ));
    }
    assert forall|a: Digest| #[trigger] latest_account(after, a) == latest_account(rows, a) by {
        assert(raw(after, CF_ACCOUNT_INDEX, a@) == raw(rows, CF_ACCOUNT_INDEX, a@));
        if raw(rows, CF_ACCOUNT_INDEX, a@) is Some {
            let row = raw(rows, CF_ACCOUNT_INDEX, a@)->0;
            if index_slot(row) is Ok {
                assert(account_at(after, a, index_slot(row)->Ok_0) == account_at(
                    rows,
                    a,
                    index_slot(row)->Ok_0,
                ));
            }
        }
    }
    assert forall|a: Digest, limit: nat| #[trigger] history(after, a, limit) == history(
        rows,
        a,
        limit,
    ) by {
        lemma_same_walk(after, rows, history_walk(a, limit));
    }
    lemma_same_walk(after, rows, index_walk());
}

/// `list` gives the newest versions of an account: at most `limit`, by slot, descending, and no
/// version is passed over for an older one.
pub open spec fn is_history(
    rows: Rows,
    address: Digest,
    limit: nat,
    list: Seq<(u64, AccountModel)>,
) -> bool {
    &&& list.len() <= limit
    &&& forall|i: int, j: int|
        0 <= i < j < list.len() ==> (#[trigger] list[i]).0 > (#[trigger] list[j]).0
    &&& forall|i: int|
        0 <= i < list.len() ==> account_at(rows, address, (#[trigger] list[i]).0) == Ok::<
            Option<AccountModel>,
            ErrorModel,
        >(Some(list[i].1))
    &&& forall|s: u64| #[trigger]
        has_version(rows, address, s) ==> {
            ||| exists|i: int| 0 <= i < list.len() && (#[trigger] list[i]).0 == s
            ||| list.len() == limit && forall|i: int|
                0 <= i < list.len() ==> (#[trigger] list[i]).0 > s
        }
}

/// The history of an account is complete: every version is there with its slot, newest first,
/// until the limit is reached. It comes whenever all versions can be read.
pub proof fn history_is_complete(rows: Rows, address: Digest, limit: nat)
    requires
        rows.dom().finite(),
        only_versions(rows, address),
    ensures
        history(rows, address, limit) matches Ok(list) ==> is_history(rows, address, limit, list),
        (forall|s: u64| (#[trigger] account_at(rows, address, s)) is Ok) ==> history(
            rows,
            address,
            limit,
        ) is Ok,
{
    let w = history_walk(address, limit);
    finite_rows_have_walks(rows, w);
    let found = walk(rows, w);
    assert forall|i: int| 0 <= i < found.len() implies {
        let slot = be_value((#[trigger] found[i]).0.subrange(64, 72)) as u64;
        &&& found[i].0.len() == 72
        &&& found[i].0 == account_bytes(address, slot)
        &&& account_at(rows, address, slot) == match decoded::<Account>(found[i].1) {
            Ok(account) => Ok::<Option<AccountModel>, ErrorModel>(Some(account)),
            Err(e) => Err(e),
        }
    } by {
        assert(rows.contains_key((CF_ACCOUNTS, found[i].0)) && on_walk(w, found[i].0));
        let s = choose|s: u64| found[i].0 == #[trigger] account_bytes(address, s);
        lemma_be_bytes_len(s as nat, 8);
        lemma_byte_ranges();
        lemma_be_value_of_bytes(s as nat, 8);
        assert(account_bytes(address, s).subrange(64, 72) =~= be_bytes(s as nat, 8));
    }
    lemma_versions_readable(found);
    if history(rows, address, limit) is Ok {
        let list = history(rows, address, limit)->Ok_0;
        lemma_all_versions(found);
        assert forall|i: int| 0 <= i < list.len() implies {
            &&& account_bytes(address, (#[trigger] list[i]).0) == found[i].0
            &&& account_at(rows, address, list[i].0) == Ok::<Option<AccountModel>, ErrorModel>(
                Some(list[i].1),
            )
        } by {
            lemma_version(found, i);
        }
        assert forall|i: int, j: int| 0 <= i < j < list.len() implies (#[trigger] list[i]).0
            > (#[trigger] list[j]).0 by {
            assert(comes_before(true, found[i].0, found[j].0));
            account_keys_are_ordered(address, list[j].0, list[i].0);
        }
        assert forall|s: u64| #[trigger] has_version(rows, address, s) implies {
            ||| exists|i: int| 0 <= i < list.len() && (#[trigger] list[i]).0 == s
            ||| list.len() == limit && forall|i: int|
                0 <= i < list.len() ==> (#[trigger] list[i]).0 > s
        } by {
            let k = account_bytes(address, s);
            lemma_be_bytes_len(s as nat, 8);
            assert(k.subrange(0, 64) =~= address@);
            account_keys_are_ordered(address, u64::MAX, s);
            assert(on_walk(w, k));
            assert(rows.contains_key((w.cf, k)));
            assert(reached(w, found, k));
            if exists|i: int| 0 <= i < found.len() && (#[trigger] found[i]).0 == k {
                let i = choose|i: int| 0 <= i < found.len() && (#[trigger] found[i]).0 == k;
                account_keys_are_distinct(address, s, address, list[i].0);
                assert(list[i].0 == s);
            } else {
                assert forall|i: int| 0 <= i < list.len() implies (#[trigger] list[i]).0 > s by {
                    let last = list.len() - 1;
                    assert(account_bytes(address, list[last].0) == found[last].0);
                    account_keys_are_ordered(address, s, list[last].0);
                    if i < last {
                        assert(list[i].0 > list[last].0);
                    }
                }
            }
        }
    } else {
        let i = choose|i: int|
            0 <= i < found.len() && decoded::<Account>((#[trigger] found[i]).1) is Err;
        let slot = be_value(found[i].0.subrange(64, 72)) as u64;
        assert(account_at(rows, address, slot) is Err);
    }
}

proof fn lemma_versions_readable(found: Seq<(Seq<u8>, Seq<u8>)>)
    ensures
        versions(found) is Err ==> exists|i: int|
            0 <= i < found.len() && decoded::<Account>((#[trigger] found[i]).1) is Err,
    decreases found.len(),
{
    if found.len() > 0 {
        let front = found.drop_last();
        lemma_versions_readable(front);
        if versions(front) is Err {
            let i = choose|i: int|
                0 <= i < front.len() && decoded::<Account>((#[trigger] front[i]).1) is Err;
            assert(found[i] == front[i]);
        } else if versions(found) is Err {
            assert(decoded::<Account>(found[found.len() - 1].1) is Err);
        }
    }
}

/// The slot that the index points to for an account, if it points to any.
pub open spec fn pointed_to(rows: Rows, address: Digest) -> Option<u64> {
    match raw(rows, CF_ACCOUNT_INDEX, address@) {
        Some(bytes) => Some(be_value(bytes) as u64),
        None => None,
    }
}

/// The slot is that of the newest version of an account among those of the slots `good`; none
/// where the account has no version of such a slot.
pub open spec fn newest_among(
    rows: Rows,
    address: Digest,
    good: spec_fn(u64) -> bool,
    slot: Option<u64>,
) -> bool {
    match slot {
        Some(s) => {
            &&& has_version(rows, address, s)
            &&& good(s)
            &&& forall|x: u64| #[trigger] has_version(rows, address, x) && good(x) ==> x <= s
        },
        None => forall|x: u64| #[trigger] has_version(rows, address, x) ==> !good(x),
    }
}

/// What rewinding the index does to an account: a pointer to a good slot stays; one to another
/// slot becomes one to the newest good version, or goes where there is none; and no pointer
/// comes from nowhere.
pub open spec fn rewound(
    before: Rows,
    after: Rows,
    address: Digest,
    good: spec_fn(u64) -> bool,
) -> bool {
    &&& match pointed_to(before, address) {
        None => pointed_to(after, address) is None,
        Some(s) => if good(s) {
            pointed_to(after, address) == Some(s)
        } else {
            newest_among(before, address, good, pointed_to(after, address))
        },
    }
    &&& latest_account(after, address) == match pointed_to(after, address) {
        Some(s) => account_at(before, address, s),
        None => Ok(None),
    }
}

/// Rewinding the index to a slot takes every account back to its newest version of that slot or
/// before. The versions themselves, and all else, stay.
pub proof fn rewinding_goes_back_to_a_slot(
    rows: Rows,
    max_slot: u64,
    address: Digest,
    cf: Cf,
    key: Seq<u8>,
)
    requires
        rows.dom().finite(),
        rows.dom().len() < usize::MAX,
        only_versions(rows, address),
        raw(rows, CF_ACCOUNT_INDEX, address@) matches Some(bytes) ==> bytes.len() == 8,
        rewind(rows, LineModel::UpTo(max_slot)) is Ok,
    ensures
        ({
            let after = apply(rows, (rewind(rows, LineModel::UpTo(max_slot))->Ok_0).0);
            &&& rewound(rows, after, address, |s: u64| s <= max_slot)
            &&& cf != CF_ACCOUNT_INDEX ==> raw(after, cf, key) == raw(rows, cf, key)
        }),
{
    lemma_rewound(rows, LineModel::UpTo(max_slot), address, |s: u64| s <= max_slot);
}

/// A slot is one of a line of ancestors, or not after any of them. Where there are no ancestors,
/// only slot zero is.
pub open spec fn before_or_of(ancestors: Set<u64>, slot: u64) -> bool {
    ||| ancestors.contains(slot)
    ||| ancestors == Set::<u64>::empty() && slot == 0
    ||| ancestors != Set::<u64>::empty() && forall|x: u64| ancestors.contains(x) ==> slot <= x
}

/// Rewinding the index to a line of ancestors takes every account back to its newest version of
/// one of these slots, or of a slot before them all. The versions themselves, and all else, stay.
pub proof fn rewinding_goes_back_to_ancestors(
    rows: Rows,
    ancestors: Set<u64>,
    address: Digest,
    cf: Cf,
    key: Seq<u8>,
)
    requires
        rows.dom().finite(),
        rows.dom().len() < usize::MAX,
        ancestors.finite(),
        only_versions(rows, address),
        raw(rows, CF_ACCOUNT_INDEX, address@) matches Some(bytes) ==> bytes.len() == 8,
        rewind(rows, LineModel::Fork(root_of(ancestors), ancestors)) is Ok,
    ensures
        ({
            let line = LineModel::Fork(root_of(ancestors), ancestors);
            let after = apply(rows, (rewind(rows, line)->Ok_0).0);
            let good = |s: u64| before_or_of(ancestors, s);
            &&& rewound(rows, after, address, good)
            &&& cf != CF_ACCOUNT_INDEX ==> raw(after, cf, key) == raw(rows, cf, key)
        }),
{
    let good = |s: u64| before_or_of(ancestors, s);
    let line = LineModel::Fork(root_of(ancestors), ancestors);
    assert forall|s: u64| keeps(line, s) == #[trigger] good(s) by {
        if ancestors.len() > 0 {
            lemma_least_exists(ancestors);
        } else {
            assert(ancestors =~= Set::empty());
        }
    }
    lemma_rewound(rows, line, address, good);
}

proof fn lemma_least_exists(slots: Set<u64>)
    requires
        slots.finite(),
        slots.len() > 0,
    ensures
        slots.contains(root_of(slots)),
        forall|x: u64| slots.contains(x) ==> root_of(slots) <= x,
{
    lemma_has_least(slots);
    let s = choose|s: u64| slots.contains(s) && forall|x: u64| slots.contains(x) ==> s <= x;
    assert(slots.contains(s));
}

proof fn lemma_has_least(slots: Set<u64>)
    requires
        slots.finite(),
        slots.len() > 0,
    ensures
        exists|s: u64| slots.contains(s) && forall|x: u64| slots.contains(x) ==> s <= x,
    decreases slots.len(),
{
    let a = slots.choose();
    let rest = slots.remove(a);
    if rest.len() == 0 {
        assert forall|x: u64| slots.contains(x) implies a <= x by {
            if x != a {
                assert(rest.contains(x));
            }
        }
    } else {
        lemma_has_least(rest);
        let s = choose|s: u64| rest.contains(s) && forall|x: u64| rest.contains(x) ==> s <= x;
        let least = if a <= s {
            a
        } else {
            s
        };
        assert forall|x: u64| slots.contains(x) implies least <= x by {
            if x != a {
                assert(rest.contains(x));
            }
        }
        assert(slots.contains(least));
    }
}

proof fn lemma_rewound(rows: Rows, line: LineModel, address: Digest, good: spec_fn(u64) -> bool)
    requires
        rows.dom().finite(),
        rows.dom().len() < usize::MAX,
        only_versions(rows, address),
        raw(rows, CF_ACCOUNT_INDEX, address@) matches Some(bytes) ==> bytes.len() == 8,
        rewind(rows, line) is Ok,
        forall|s: u64| keeps(line, s) == #[trigger] good(s),
    ensures
        rewound(rows, apply(rows, (rewind(rows, line)->Ok_0).0), address, good),
        forall|cf: Cf, k: Seq<u8>| cf != CF_ACCOUNT_INDEX ==> #[trigger] raw(
            apply(rows, (rewind(rows, line)->Ok_0).0),
            cf,
            k,
        ) == raw(rows, cf, k),
{
    let w = index_walk();
    finite_rows_have_walks(rows, w);
    let index = walk(rows, w);
    walk_is_within_rows(rows, w, index);
    let key = address@;
    rewound_index_is_good(rows, index, line, key);
    lemma_digest_of(address);
    let row = raw(rows, CF_ACCOUNT_INDEX, key);
    if row is Some && is_stale((key, row->0), line) {
        assert(rows.contains_key((CF_ACCOUNT_INDEX, key)));
        assert(key.subrange(0, 0) =~= Seq::<u8>::empty());
        assert(on_walk(w, key));
        assert(reached(w, index, key));
        let i = choose|i: int| 0 <= i < index.len() && (#[trigger] index[i]).0 == key;
        assert(is_stale(index[i], line));
        lemma_rewind_reads(rows, index, line, i);
        let hw = history_walk(address, usize::MAX as nat);
        finite_rows_have_walks(rows, hw);
        walk_is_within_rows(rows, hw, walk(rows, hw));
        lemma_version_count(walk(rows, hw));
        best_is_newest_good(rows, address, line);
        let b = best(history(rows, address, usize::MAX as nat)->Ok_0, line);
        if b is Some {
            lemma_byte_ranges();
            lemma_be_bytes_len(b->0 as nat, 8);
            lemma_be_value_of_bytes(b->0 as nat, 8);
            assert forall|x: u64| #[trigger] has_version(rows, address, x) && good(x) implies x
                <= b->0 by {
                assert(keeps(line, x) == good(x));
            }
        }
        assert(newest_among(rows, address, good, b)) by {
            assert forall|x: u64| #[trigger] has_version(rows, address, x) implies keeps(line, x)
                == good(x) by {}
            if b is Some {
                assert(keeps(line, b->0) == good(b->0));
            }
        }
    } else if row is Some {
        let s = be_value(row->0) as u64;
        assert(keeps(line, s) == good(s));
    }
    let after = apply(rows, (rewind(rows, line)->Ok_0).0);
    assert forall|s: u64| #[trigger] account_at(after, address, s) == account_at(
        rows,
        address,
        s,
    ) by {
        let k = account_bytes(address, s);
        assert(raw(after, CF_ACCOUNTS, k) == raw(rows, CF_ACCOUNTS, k));
    }
}

/// Where the index can be rewound, the history of every account with a stale pointer can be read.
proof fn lemma_rewind_reads(
    rows: Rows,
    index: Seq<(Seq<u8>, Seq<u8>)>,
    line: LineModel,
    i: int,
)
    requires
        rewind_ops(rows, index, line) is Ok,
        0 <= i < index.len(),
        is_stale(index[i], line),
    ensures
        history(rows, digest_of(index[i].0), usize::MAX as nat) is Ok,
    decreases index.len(),
{
    let front = index.drop_last();
    if i < front.len() {
        assert(front[i] == index[i]);
        lemma_rewind_reads(rows, front, line, i);
    }
}

/// What cleaning up a slot does to an account: its version of that slot is gone, and the latest
/// version is the newest one that it had of a good slot.
pub open spec fn cleaned_up(
    before: Rows,
    after: Rows,
    slot: u64,
    address: Digest,
    good: spec_fn(u64) -> bool,
) -> bool {
    &&& account_at(after, address, slot) == Ok::<Option<AccountModel>, ErrorModel>(None)
    &&& newest_among(before, address, good, pointed_to(after, address))
    &&& latest_account(after, address) == match pointed_to(after, address) {
        Some(s) => account_at(after, address, s),
        None => Ok(None),
    }
    &&& forall|s: u64|
        s != slot ==> #[trigger] account_at(after, address, s) == account_at(before, address, s)
}

/// Cleaning up a failed slot takes each of its accounts back to the newest version of the parent
/// slot or before. Other accounts stay as they are. As many accounts are told as were given.
pub proof fn cleanup_goes_back_to_the_parent(
    rows: Rows,
    slot: u64,
    parent_slot: u64,
    addresses: Seq<Digest>,
    address: Digest,
)
    requires
        rows.dom().finite(),
        rows.dom().len() < usize::MAX,
        addresses.len() <= u64::MAX,
        only_versions(rows, address),
        cleanup(rows, slot, addresses, LineModel::UpTo(parent_slot)) is Ok,
    ensures
        ({
            let (ops, told) = cleanup(rows, slot, addresses, LineModel::UpTo(parent_slot))->Ok_0;
            let after = apply(rows, ops);
            &&& told == addresses.len()
            &&& if addresses.contains(address) {
                cleaned_up(rows, after, slot, address, |s: u64| s <= parent_slot)
            } else {
                latest_account(after, address) == latest_account(rows, address) && forall|s: u64|
                    #[trigger] account_at(after, address, s) == account_at(rows, address, s)
            }
        }),
{
    lemma_cleaned_up(
        rows,
        slot,
        addresses,
        LineModel::UpTo(parent_slot),
        address,
        |s: u64| s <= parent_slot,
    );
}

/// Cleaning up a failed slot on a line of ancestors takes each of its accounts back to the newest
/// version of one of these slots. Other accounts stay as they are. As many accounts are told as
/// were given.
pub proof fn cleanup_goes_back_to_ancestors(
    rows: Rows,
    slot: u64,
    ancestors: Set<u64>,
    addresses: Seq<Digest>,
    address: Digest,
)
    requires
        rows.dom().finite(),
        rows.dom().len() < usize::MAX,
        addresses.len() <= u64::MAX,
        only_versions(rows, address),
        cleanup(rows, slot, addresses, LineModel::Of(ancestors)) is Ok,
    ensures
        ({
            let (ops, told) = cleanup(rows, slot, addresses, LineModel::Of(ancestors))->Ok_0;
            let after = apply(rows, ops);
            &&& told == addresses.len()
            &&& if addresses.contains(address) {
                cleaned_up(rows, after, slot, address, |s: u64| ancestors.contains(s))
            } else {
                latest_account(after, address) == latest_account(rows, address) && forall|s: u64|
                    #[trigger] account_at(after, address, s) == account_at(rows, address, s)
            }
        }),
{
    lemma_cleaned_up(
        rows,
        slot,
        addresses,
        LineModel::Of(ancestors),
        address,
        |s: u64| ancestors.contains(s),
    );
}

proof fn lemma_cleaned_up(
    rows: Rows,
    slot: u64,
    addresses: Seq<Digest>,
    line: LineModel,
    address: Digest,
    good: spec_fn(u64) -> bool,
)
    requires
        rows.dom().finite(),
        rows.dom().len() < usize::MAX,
        only_versions(rows, address),
        cleanup_ops(rows, slot, addresses, line) is Ok,
        forall|s: u64| keeps(line, s) == #[trigger] good(s),
    ensures
        ({
            let after = apply(rows, cleanup_ops(rows, slot, addresses, line)->Ok_0);
            if addresses.contains(address) {
                cleaned_up(rows, after, slot, address, good)
            } else {
                latest_account(after, address) == latest_account(rows, address) && forall|s: u64|
                    #[trigger] account_at(after, address, s) == account_at(rows, address, s)
            }
        }),
{
    let after = apply(rows, cleanup_ops(rows, slot, addresses, line)->Ok_0);
    cleanup_undoes_slot(rows, slot, addresses, line);
    if addresses.contains(address) {
        let i = choose|i: int| 0 <= i < addresses.len() && addresses[i] == address;
        lemma_cleanup_reads(rows, slot, addresses, line, i);
        let hw = history_walk(address, usize::MAX as nat);
        finite_rows_have_walks(rows, hw);
        walk_is_within_rows(rows, hw, walk(rows, hw));
        lemma_version_count(walk(rows, hw));
        best_is_newest_good(rows, address, line);
        let b = best(history(rows, address, usize::MAX as nat)->Ok_0, line);
        assert(raw(after, CF_ACCOUNT_INDEX, address@) == pointer(b)) by {
            assert(addresses[i] == address);
        }
        if b is Some {
            lemma_byte_ranges();
            lemma_be_bytes_len(b->0 as nat, 8);
            lemma_be_value_of_bytes(b->0 as nat, 8);
            assert(keeps(line, b->0) == good(b->0));
        }
        assert forall|x: u64| #[trigger] has_version(rows, address, x) implies keeps(line, x)
            == good(x) by {}
        assert(newest_among(rows, address, good, b));
    }
    assert forall|s: u64|
        !addresses.contains(address) || s != slot implies #[trigger] account_at(after, address, s)
        == account_at(rows, address, s) by {
        let k = account_bytes(address, s);
        assert forall|i: int| 0 <= i < addresses.len() implies k != account_bytes(
            #[trigger] addresses[i],
            slot,
        ) by {
            account_keys_are_distinct(address, s, addresses[i], slot);
        }
        assert(raw(after, CF_ACCOUNTS, k) == raw(rows, CF_ACCOUNTS, k));
    }
    if !addresses.contains(address) {
        assert forall|i: int| 0 <= i < addresses.len() implies address@ != (
        #[trigger] addresses[i])@ by {
            lemma_digest_of(address);
            lemma_digest_of(addresses[i]);
        }
        assert(raw(after, CF_ACCOUNT_INDEX, address@) == raw(rows, CF_ACCOUNT_INDEX, address@));
    }
}

/// Where a slot can be cleaned up, the history of each of its accounts can be read.
proof fn lemma_cleanup_reads(
    rows: Rows,
    slot: u64,
    addresses: Seq<Digest>,
    line: LineModel,
    i: int,
)
    requires
        cleanup_ops(rows, slot, addresses, line) is Ok,
        0 <= i < addresses.len(),
    ensures
        history(rows, addresses[i], usize::MAX as nat) is Ok,
    decreases addresses.len(),
{
    let front = addresses.drop_last();
    if i < front.len() {
        assert(front[i] == addresses[i]);
        lemma_cleanup_reads(rows, slot, front, line, i);
    }
}

/// The accounts whose pointers are not to a slot up to a highest one.
pub open spec fn pointing_past(rows: Rows, max_slot: u64) -> Set<Seq<u8>> {
    Set::new(
        |k: Seq<u8>|
            {
                &&& k.len() == 64
                &&& raw(rows, CF_ACCOUNT_INDEX, k) is Some
                &&& raw(rows, CF_ACCOUNT_INDEX, k)->0.len() == 8
                &&& be_value(raw(rows, CF_ACCOUNT_INDEX, k)->0) > max_slot
            },
    )
}

/// Rewinding the index to a slot tells how many accounts it took back.
pub proof fn rewinding_tells_how_many(rows: Rows, max_slot: u64)
    requires
        rows.dom().finite(),
        rows.dom().len() < usize::MAX,
        rewind(rows, LineModel::UpTo(max_slot)) is Ok,
    ensures
        (rewind(rows, LineModel::UpTo(max_slot))->Ok_0).1 == pointing_past(rows, max_slot).len(),
{
    let line = LineModel::UpTo(max_slot);
    let w = index_walk();
    finite_rows_have_walks(rows, w);
    let index = walk(rows, w);
    walk_is_within_rows(rows, w, index);
    assert forall|i: int, j: int| 0 <= i < j < index.len() implies (#[trigger] index[i]).0 != (
    #[trigger] index[j]).0 by {
        assert(comes_before(false, index[i].0, index[j].0));
        lemma_lex_irreflexive(index[i].0);
    }
    let keys = stale_keys(index, line);
    lemma_stale_keys(rows, index, line);
    keys.unique_seq_to_set();
    assert(keys.to_set() =~= pointing_past(rows, max_slot)) by {
        assert forall|k: Seq<u8>| keys.contains(k) implies pointing_past(rows, max_slot).contains(
            k,
        ) by {
            let i = choose|i: int|
                0 <= i < index.len() && (#[trigger] index[i]).0 == k && is_stale(index[i], line);
            assert(rows.contains_key((CF_ACCOUNT_INDEX, index[i].0)));
            lemma_byte_ranges();
            lemma_be_bytes_of_value(index[i].1);
        }
        assert forall|k: Seq<u8>| pointing_past(rows, max_slot).contains(k) implies keys.contains(
            k,
        ) by {
            assert(rows.contains_key((CF_ACCOUNT_INDEX, k)));
            assert(k.subrange(0, 0) =~= Seq::<u8>::empty());
            assert(on_walk(w, k));
            assert(reached(w, index, k));
            let i = choose|i: int| 0 <= i < index.len() && (#[trigger] index[i]).0 == k;
            lemma_byte_ranges();
            lemma_be_bytes_of_value(index[i].1);
            assert(is_stale(index[i], line));
        }
    }
}

/// The keys of the stale rows of the index.
spec fn stale_keys(index: Seq<(Seq<u8>, Seq<u8>)>, line: LineModel) -> Seq<Seq<u8>>
    decreases index.len(),
{
    if index.len() == 0 {
        Seq::empty()
    } else {
        let front = stale_keys(index.drop_last(), line);
        if is_stale(index.last(), line) {
            front.push(index.last().0)
        } else {
            front
        }
    }
}

proof fn lemma_stale_keys(rows: Rows, index: Seq<(Seq<u8>, Seq<u8>)>, line: LineModel)
    requires
        rewind_ops(rows, index, line) is Ok,
        forall|i: int, j: int|
            0 <= i < j < index.len() ==> (#[trigger] index[i]).0 != (#[trigger] index[j]).0,
    ensures
        stale_keys(index, line).len() == rewind_ops(rows, index, line)->Ok_0.len(),
        stale_keys(index, line).len() <= index.len(),
        stale_keys(index, line).no_duplicates(),
        forall|k: Seq<u8>| #[trigger]
            stale_keys(index, line).contains(k) <==> has_stale(index, k, line),
    decreases index.len(),
{
    if index.len() > 0 {
        let front = index.drop_last();
        let last = index[index.len() - 1];
        assert forall|i: int, j: int| 0 <= i < j < front.len() implies (#[trigger] front[i]).0 != (
        #[trigger] front[j]).0 by {
            assert(index[i].0 != index[j].0);
        }
        lemma_stale_keys(rows, front, line);
        let before = stale_keys(front, line);
        let keys = stale_keys(index, line);
        assert(!has_stale(front, last.0, line)) by {
            if has_stale(front, last.0, line) {
                let i = choose|i: int|
                    0 <= i < front.len() && (#[trigger] front[i]).0 == last.0 && is_stale(
                        front[i],
                        line,
                    );
                assert(index[i].0 != index[index.len() - 1].0);
            }
        }
        assert forall|k: Seq<u8>| #[trigger] keys.contains(k) implies has_stale(
            index,
            k,
            line,
        ) by {
            let n = choose|n: int| 0 <= n < keys.len() && keys[n] == k;
            if n < before.len() {
                assert(before[n] == k);
                assert(before.contains(k));
                let i = choose|i: int|
                    0 <= i < front.len() && (#[trigger] front[i]).0 == k && is_stale(
                        front[i],
                        line,
                    );
                assert(index[i].0 == k && is_stale(index[i], line));
            } else {
                assert(last.0 == k && is_stale(last, line));
            }
        }
        assert forall|k: Seq<u8>| has_stale(index, k, line) implies #[trigger] keys.contains(
            k,
        ) by {
            let i = choose|i: int|
                0 <= i < index.len() && (#[trigger] index[i]).0 == k && is_stale(index[i], line);
            if i < front.len() {
                assert(front[i] == index[i]);
                assert(has_stale(front, k, line));
                assert(before.contains(k));
                let n = choose|n: int| 0 <= n < before.len() && before[n] == k;
                assert(keys[n] == k);
            } else {
                assert(keys[keys.len() - 1] == k);
            }
        }
        assert(keys.no_duplicates()) by {
            assert(!before.contains(last.0));
        }
    } else {
        assert forall|k: Seq<u8>| !has_stale(index, k, line) by {}
    }
}

/// `list` gives the accounts of a share of all, each with its latest version, in the order of
/// their addresses. A share is told by the remainder of the first byte of an address; without
/// one, all accounts are meant.
pub open spec fn is_account_list(
    rows: Rows,
    part: Option<(u64, u64)>,
    list: Seq<(Digest, AccountModel)>,
) -> bool {
    let mine = |a: Digest|
        part matches Some((partition, total)) ==> a@[0] as int % total as int == partition;
    &&& forall|i: int, j: int|
        0 <= i < j < list.len() ==> lex_less((#[trigger] list[i]).0@, (#[trigger] list[j]).0@)
    &&& forall|i: int|
        0 <= i < list.len() ==> {
            let (address, account) = #[trigger] list[i];
            mine(address) && latest_account(rows, address) == Ok::<
                Option<AccountModel>,
                ErrorModel,
            >(Some(account))
        }
    &&& forall|address: Digest|
        mine(address) ==> ((#[trigger] latest_account(rows, address)) matches Ok(Some(account))
            ==> list.contains((address, account)))
}

/// The list of the accounts of a share is complete: it has every account whose address is in the
/// share, with its latest version, and no other. It comes whenever these can be read.
pub proof fn account_list_is_complete(rows: Rows, part: Option<(u64, u64)>)
    requires
        rows.dom().finite(),
        rows.dom().len() < usize::MAX,
        part matches Some((_, total)) ==> total > 0,
    ensures
        accounts(rows, part) matches Ok(list) ==> is_account_list(rows, part, list),
        (forall|address: Digest| (#[trigger] latest_account(rows, address)) is Ok) ==> accounts(
            rows,
            part,
        ) is Ok,
{
    let w = index_walk();
    finite_rows_have_walks(rows, w);
    let index = walk(rows, w);
    walk_is_within_rows(rows, w, index);
    lemma_accounts_listed(rows, index, part);
    if accounts(rows, part) is Ok {
        let list = accounts(rows, part)->Ok_0;
        let mine = |a: Digest|
            part matches Some((partition, total)) ==> a@[0] as int % total as int == partition;
        assert forall|address: Digest|
            mine(address) && (#[trigger] latest_account(rows, address)) is Ok && latest_account(
                rows,
                address,
            )->Ok_0 is Some implies list.contains(
            (address, latest_account(rows, address)->Ok_0->0),
        ) by {
            let k = address@;
            assert(rows.contains_key((CF_ACCOUNT_INDEX, k)));
            assert(k.subrange(0, 0) =~= Seq::<u8>::empty());
            assert(on_walk(w, k));
            assert(reached(w, index, k));
            let i = choose|i: int| 0 <= i < index.len() && (#[trigger] index[i]).0 == k;
            lemma_digest_of(address);
            assert(in_partition(index[i].0, part));
        }
        assert(is_account_list(rows, part, list));
    }
}

proof fn lemma_accounts_listed(
    rows: Rows,
    index: Seq<(Seq<u8>, Seq<u8>)>,
    part: Option<(u64, u64)>,
)
    requires
        forall|i: int, j: int|
            0 <= i < j < index.len() ==> comes_before(
                false,
                (#[trigger] index[i]).0,
                (#[trigger] index[j]).0,
            ),
    ensures
        accounts_in(rows, index, part) is Err ==> exists|address: Digest|
            (#[trigger] latest_account(rows, address)) is Err,
        accounts_in(rows, index, part) matches Ok(list) ==> {
            &&& forall|i: int, j: int|
                0 <= i < j < list.len() ==> lex_less(
                    (#[trigger] list[i]).0@,
                    (#[trigger] list[j]).0@,
                )
            &&& forall|i: int|
                0 <= i < list.len() ==> {
                    let (address, account) = #[trigger] list[i];
                    &&& in_partition(address@, part)
                    &&& latest_account(rows, address) == Ok::<Option<AccountModel>, ErrorModel>(
                        Some(account),
                    )
                    &&& exists|n: int| 0 <= n < index.len() && (#[trigger] index[n]).0 == address@
                }
            &&& forall|n: int|
                0 <= n < index.len() && (#[trigger] index[n]).0.len() == 64 && in_partition(
                    index[n].0,
                    part,
                ) ==> (latest_account(rows, digest_of(index[n].0)) matches Ok(Some(account))
                    ==> list.contains((digest_of(index[n].0), account)))
        },
    decreases index.len(),
{
    if index.len() > 0 {
        let front = index.drop_last();
        let key = index[index.len() - 1].0;
        assert forall|i: int, j: int| 0 <= i < j < front.len() implies comes_before(
            false,
            (#[trigger] front[i]).0,
            (#[trigger] front[j]).0,
        ) by {
            assert(comes_before(false, index[i].0, index[j].0));
        }
        lemma_accounts_listed(rows, front, part);
        if accounts_in(rows, front, part) is Ok && accounts_in(rows, index, part) is Ok {
            let before = accounts_in(rows, front, part)->Ok_0;
            let list = accounts_in(rows, index, part)->Ok_0;
            if key.len() == 64 {
                lemma_digest_bytes(key);
            }
            assert forall|i: int| 0 <= i < list.len() implies {
                let (address, account) = #[trigger] list[i];
                &&& in_partition(address@, part)
                &&& latest_account(rows, address) == Ok::<Option<AccountModel>, ErrorModel>(
                    Some(account),
                )
                &&& exists|n: int| 0 <= n < index.len() && (#[trigger] index[n]).0 == address@
            } by {
                if i < before.len() {
                    assert(before[i] == list[i]);
                    let n = choose|n: int|
                        0 <= n < front.len() && (#[trigger] front[n]).0 == before[i].0@;
                    assert(index[n].0 == list[i].0@);
                } else {
                    assert(index[index.len() - 1].0 == list[i].0@);
                }
            }
            assert forall|i: int, j: int| 0 <= i < j < list.len() implies lex_less(
                (#[trigger] list[i]).0@,
                (#[trigger] list[j]).0@,
            ) by {
                if j < before.len() {
                    assert(before[i] == list[i] && before[j] == list[j]);
                } else {
                    assert(before[i] == list[i]);
                    let n = choose|n: int|
                        0 <= n < front.len() && (#[trigger] front[n]).0 == before[i].0@;
                    assert(comes_before(false, index[n].0, index[index.len() - 1].0));
                }
            }
            assert forall|n: int|
                0 <= n < index.len() && (#[trigger] index[n]).0.len() == 64 && in_partition(
                    index[n].0,
                    part,
                ) implies (latest_account(rows, digest_of(index[n].0)) matches Ok(Some(account))
                ==> list.contains((digest_of(index[n].0), account))) by {
                let got = latest_account(rows, digest_of(index[n].0));
                if got is Ok && got->Ok_0 is Some {
                    let item = (digest_of(index[n].0), got->Ok_0->0);
                    if n < front.len() {
                        assert(front[n] == index[n]);
                        assert(before.contains(item));
                        let i = choose|i: int| 0 <= i < before.len() && before[i] == item;
                        assert(list[i] == item);
                    } else {
                        assert(list[list.len() - 1] == item);
                    }
                }
            }
        }
    }
}

/// A written account is on the lists of its owner, and no longer on those of another. The lists
/// had it under the owner that it had, if it was there before.
pub proof fn written_account_is_listed(
    rows: Rows,
    address: Digest,
    slot: u64,
    account: AccountModel,
)
    requires
        <Account as Codec>::fits(account),
        latest_account(rows, address) is Ok,
        latest_account(rows, address)->Ok_0 matches Some(old) ==> on_lists(
            rows,
            address,
            (old.1).0,
        ),
        forall|o: Digest|
            !(latest_account(rows, address)->Ok_0 is Some && ((latest_account(
                rows,
                address,
            )->Ok_0->0).1).0 == o) ==> #[trigger] off_lists(rows, address, o),
    ensures
        ({
            let after = apply(rows, account_write(rows, address, slot, account)->Ok_0);
            &&& on_lists(after, address, (account.1).0)
            &&& forall|o: Digest| o != (account.1).0 ==> #[trigger] off_lists(after, address, o)
        }),
{
    let old = old_owner(latest_account(rows, address)->Ok_0);
    let bytes = encoded::<Account>(account)->Ok_0;
    decoded_inverts_encoded::<Account>(account);
    let puts = seq![
        Op::Put(CF_ACCOUNTS, account_bytes(address, slot), bytes),
        Op::Put(CF_ACCOUNT_INDEX, address@, slot_bytes(slot)),
    ];
    let lists = index_ops(address, old, owner_of(account));
    assert(account_write(rows, address, slot, account)->Ok_0 == puts + lists);
    lemma_apply_concat(rows, puts, lists);
    let written = apply(rows, puts);
    reveal_with_fuel(apply, 3);
    assert(puts.drop_last() =~= seq![Op::Put(CF_ACCOUNTS, account_bytes(address, slot), bytes)]);
    assert(written == rows.insert((CF_ACCOUNTS, account_bytes(address, slot)), bytes).insert(
        (CF_ACCOUNT_INDEX, address@),
        slot_bytes(slot),
    ));
    assert forall|o: Digest| old != Some(o) implies #[trigger] off_lists(written, address, o) by {
        assert(off_lists(rows, address, o));
    }
    index_follows_owner(written, address, old, owner_of(account));
}

/// No more accounts are listed than the store has rows.
pub proof fn account_list_is_short(rows: Rows, part: Option<(u64, u64)>)
    requires
        rows.dom().finite(),
    ensures
        accounts(rows, part) matches Ok(list) ==> list.len() <= rows.dom().len(),
{
    let w = index_walk();
    finite_rows_have_walks(rows, w);
    walk_is_within_rows(rows, w, walk(rows, w));
    lemma_account_count(rows, walk(rows, w), part);
}

proof fn lemma_account_count(
    rows: Rows,
    index: Seq<(Seq<u8>, Seq<u8>)>,
    part: Option<(u64, u64)>,
)
    ensures
        accounts_in(rows, index, part) matches Ok(list) ==> list.len() <= index.len(),
    decreases index.len(),
{
    if index.len() > 0 {
        lemma_account_count(rows, index.drop_last(), part);
    }
}

} // verus!
