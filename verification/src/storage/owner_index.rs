//! Which accounts belong to an owner, and which to a program.
//!
//! A program is the owner of its accounts: the two lists have the same entries.

use crate::bytes::{lemma_lex_common_prefix, lex_less};
use crate::codec::{models, Codec};
use crate::digest::{digest_of, lemma_digest_bytes, lemma_digest_of, Digest};
use crate::ledger::Account;
use crate::storage::account_index::{latest_account, AccountModel};
use crate::storage::cf::{Cf, CF_OWNER_INDEX, CF_PROGRAM_INDEX};
use crate::storage::database::{
    comes_before, finite_rows_have_walks, lemma_next_page, on_walk, reached, views, walk,
    walk_is_within_rows, walked, Database, Walk, WalkModel,
};
use crate::storage::error::StorageError;
use crate::storage::keys::{owner_index_bytes, owner_index_key, owner_index_keys_are_distinct};
use crate::storage::store::{agrees, changed, outcome, raw, ErrorModel, Storage};
use crate::storage::write_batch::{apply, Op, Rows, StorageWriteBatch};
use vstd::prelude::*;
use vstd::slice::slice_to_vec;

verus! {

/// How many accounts a query gives where no limit is asked for.
pub const DEFAULT_QUERY_LIMIT: usize = 1000;

/// The owner of an account.
pub open spec fn owner_of(account: AccountModel) -> Digest {
    (account.1).0
}

/// The changes that put an account on the lists of its owner, and take it off those of
/// the owner that it had.
pub open spec fn index_ops(
    address: Digest,
    old_owner: Option<Digest>,
    new_owner: Digest,
) -> Seq<Op> {
    let added = owner_index_bytes(new_owner, address);
    let puts = seq![
        Op::Put(CF_OWNER_INDEX, added, Seq::<u8>::empty()),
        Op::Put(CF_PROGRAM_INDEX, added, Seq::<u8>::empty()),
    ];
    match old_owner {
        Some(o) => {
            let gone = owner_index_bytes(o, address);
            if o == new_owner {
                Seq::empty()
            } else {
                seq![Op::Delete(CF_OWNER_INDEX, gone), Op::Delete(CF_PROGRAM_INDEX, gone)] + puts
            }
        },
        None => puts,
    }
}

pub open spec fn old_owner(old: Option<AccountModel>) -> Option<Digest> {
    match old {
        Some(a) => Some(owner_of(a)),
        None => None,
    }
}

/// The rows of the list of an owner or a program.
pub open spec fn index_walk(cf: Cf, prefix: Digest) -> WalkModel {
    WalkModel {
        cf,
        prefix: prefix@,
        start: None,
        key_len: None,
        reverse: false,
        limit: usize::MAX as nat,
    }
}

/// What a query has found after some rows, and whether it goes on.
pub open spec fn queried(rows: Rows, found: Seq<(Seq<u8>, Seq<u8>)>, limit: nat) -> (
    Result<Seq<(Digest, AccountModel)>, ErrorModel>,
    bool,
)
    decreases found.len(),
{
    if found.len() == 0 {
        (Ok(Seq::empty()), limit > 0)
    } else {
        let (so_far, goes_on) = queried(rows, found.drop_last(), limit);
        let key = found.last().0;
        if !goes_on || so_far is Err {
            (so_far, false)
        } else if key.len() != 128 {
            (so_far, false)
        } else {
            let address = digest_of(key.subrange(64, 128));
            match latest_account(rows, address) {
                Err(e) => (Err(e), false),
                Ok(None) => (so_far, so_far->Ok_0.len() < limit),
                Ok(Some(account)) => {
                    let more = so_far->Ok_0.push((address, account));
                    (Ok(more), more.len() < limit)
                },
            }
        }
    }
}

/// The accounts on a list, up to a limit, in the order of their addresses: those that the
/// store still has, up to the first row that is not one of a list.
pub open spec fn listed(rows: Rows, cf: Cf, prefix: Digest, limit: nat) -> Result<
    Seq<(Digest, AccountModel)>,
    ErrorModel,
> {
    queried(rows, walk(rows, index_walk(cf, prefix)), limit).0
}

/// How many accounts a query gives at most.
pub open spec fn query_limit(limit: Option<usize>) -> nat {
    match limit {
        Some(n) => n as nat,
        None => DEFAULT_QUERY_LIMIT as nat,
    }
}

/// The accounts of an owner.
pub open spec fn accounts_of_owner(rows: Rows, owner: Digest, limit: Option<usize>) -> Result<
    Seq<(Digest, AccountModel)>,
    ErrorModel,
> {
    listed(rows, CF_OWNER_INDEX, owner, query_limit(limit))
}

/// The accounts of a program.
pub open spec fn accounts_of_program(rows: Rows, program: Digest, limit: Option<usize>) -> Result<
    Seq<(Digest, AccountModel)>,
    ErrorModel,
> {
    listed(rows, CF_PROGRAM_INDEX, program, query_limit(limit))
}

/// The changes that take an account off the lists of an owner.
pub open spec fn unlist_ops(address: Digest, owner: Digest) -> Seq<Op> {
    seq![
        Op::Delete(CF_OWNER_INDEX, owner_index_bytes(owner, address)),
        Op::Delete(CF_PROGRAM_INDEX, owner_index_bytes(owner, address)),
    ]
}

/// A query that has ended stays ended.
proof fn lemma_query_ended(
    rows: Rows,
    found: Seq<(Seq<u8>, Seq<u8>)>,
    limit: nat,
    n: int,
)
    requires
        0 <= n <= found.len(),
        !queried(rows, found.take(n), limit).1,
    ensures
        queried(rows, found, limit).0 == queried(rows, found.take(n), limit).0,
        !queried(rows, found, limit).1,
    decreases found.len(),
{
    if n == found.len() {
        assert(found.take(n) =~= found);
    } else {
        assert(found.drop_last().take(n) =~= found.take(n));
        lemma_query_ended(rows, found.drop_last(), limit, n);
    }
}

impl<D: Database> Storage<D> {
    /// The changes to the lists for an account that is written, on their own.
    pub fn prepare_index_updates(
        &self,
        address: &Digest,
        old_account: Option<&Account>,
        new_account: &Account,
    ) -> (r: StorageWriteBatch)
        ensures
            r@ == index_ops(
                *address,
                match old_account {
                    Some(a) => Some(a.owner),
                    None => None,
                },
                new_account.owner,
            ),
    {
        let mut batch = StorageWriteBatch::new();
        Self::write_index_updates(&mut batch, address, old_account, new_account);
        assert(batch@ =~= index_ops(
            *address,
            match old_account {
                Some(a) => Some(a.owner),
                None => None,
            },
            new_account.owner,
        ));
        batch
    }

    /// Adds the changes to the lists for an account that is written.
    pub fn write_index_updates(
        batch: &mut StorageWriteBatch,
        address: &Digest,
        old_account: Option<&Account>,
        new_account: &Account,
    )
        ensures
            final(batch)@ == old(batch)@ + index_ops(
                *address,
                match old_account {
                    Some(a) => Some(a.owner),
                    None => None,
                },
                new_account.owner,
            ),
    {
        let ghost before = batch@;
        let unchanged = match old_account {
            Some(o) => o.owner == new_account.owner,
            None => false,
        };
        if unchanged {
            assert(batch@ =~= before + Seq::<Op>::empty());
            return ;
        }
        match old_account {
            Some(o) => {
                let gone = owner_index_key(&o.owner, address);
                batch.delete(CF_OWNER_INDEX, slice_to_vec(gone.as_slice()));
                batch.delete(CF_PROGRAM_INDEX, slice_to_vec(gone.as_slice()));
            },
            None => {},
        }
        let added = owner_index_key(&new_account.owner, address);
        batch.put(CF_OWNER_INDEX, slice_to_vec(added.as_slice()), Vec::new());
        batch.put(CF_PROGRAM_INDEX, slice_to_vec(added.as_slice()), Vec::new());
        assert(batch@ =~= before + index_ops(
            *address,
            match old_account {
                Some(a) => Some(a.owner),
                None => None,
            },
            new_account.owner,
        ));
    }

    /// Makes the changes to the lists for an account that is written.
    pub fn update_account_indexes(
        &mut self,
        address: &Digest,
        old_account: Option<&Account>,
        new_account: &Account,
    ) -> (r: Result<(), StorageError>)
        ensures
            old(self).reliable() ==> final(self).reliable(),
            changed(
                old(self).reliable(),
                old(self).rows(),
                final(self).rows(),
                outcome(r),
                Ok(
                    (
                        index_ops(
                            *address,
                            match old_account {
                                Some(a) => Some(a.owner),
                                None => None,
                            },
                            new_account.owner,
                        ),
                        (),
                    ),
                ),
            ),
    {
        let batch = self.prepare_index_updates(address, old_account, new_account);
        if !batch.is_empty() {
            return self.write(&batch);
        }
        Ok(())
    }

    /// The accounts of an owner.
    pub fn get_accounts_by_owner(&self, owner: &Digest, limit: Option<usize>) -> (r: Result<
        Vec<(Digest, Account)>,
        StorageError,
    >)
        ensures
            agrees(
                self.reliable(),
                outcome(r),
                accounts_of_owner(self.rows(), *owner, limit),
            ),
    {
        let n: usize = match limit {
            Some(n) => n,
            None => DEFAULT_QUERY_LIMIT,
        };
        self.query_index_cf(CF_OWNER_INDEX, owner, n)
    }

    /// The accounts of a program.
    pub fn get_accounts_by_program(&self, program: &Digest, limit: Option<usize>) -> (r: Result<
        Vec<(Digest, Account)>,
        StorageError,
    >)
        ensures
            agrees(
                self.reliable(),
                outcome(r),
                accounts_of_program(self.rows(), *program, limit),
            ),
    {
        let n: usize = match limit {
            Some(n) => n,
            None => DEFAULT_QUERY_LIMIT,
        };
        self.query_index_cf(CF_PROGRAM_INDEX, program, n)
    }

    /// Takes an account off the lists.
    pub fn remove_account_indexes(&mut self, address: &Digest, account: &Account) -> (r: Result<
        (),
        StorageError,
    >)
        ensures
            old(self).reliable() ==> final(self).reliable(),
            changed(
                old(self).reliable(),
                old(self).rows(),
                final(self).rows(),
                outcome(r),
                Ok((unlist_ops(*address, account.owner), ())),
            ),
    {
        let mut batch = StorageWriteBatch::new();
        let key = owner_index_key(&account.owner, address);
        batch.delete(CF_OWNER_INDEX, slice_to_vec(key.as_slice()));
        batch.delete(CF_PROGRAM_INDEX, slice_to_vec(key.as_slice()));
        assert(batch@ =~= unlist_ops(*address, account.owner));
        self.write(&batch)
    }

    /// The accounts on a list. No more rows are read than may be needed: as many as accounts
    /// are still to be found, until there are enough of them or no more rows.
    #[verifier::rlimit(40)]
    fn query_index_cf(&self, cf: Cf, prefix: &Digest, limit: usize) -> (r: Result<
        Vec<(Digest, Account)>,
        StorageError,
    >)
        ensures
            agrees(self.reliable(), outcome(r), listed(self.rows(), cf, *prefix, limit as nat)),
    {
        let ghost full = walk(self.rows(), index_walk(cf, *prefix));
        let mut results: Vec<(Digest, Account)> = Vec::new();
        let mut seen: usize = 0;
        let mut start: Option<Vec<u8>> = None;
        assert(models(results@) =~= Seq::<(Digest, AccountModel)>::empty());
        assert(full.take(0) =~= Seq::<(Seq<u8>, Seq<u8>)>::empty());
        while results.len() < limit && seen < usize::MAX
            invariant
                full == walk(self.rows(), index_walk(cf, *prefix)),
                seen == 0 ==> start is None,
                seen > 0 ==> {
                    &&& walked(self.rows(), index_walk(cf, *prefix), full)
                    &&& seen <= full.len()
                    &&& start is Some
                    &&& start->0@ == full[seen - 1].0.push(0)
                },
                queried(self.rows(), full.take(seen as int), limit as nat) == (
                    Ok::<Seq<(Digest, AccountModel)>, ErrorModel>(models(results@)),
                    results@.len() < limit,
                ),
            decreases usize::MAX - seen,
        {
            let wanted: usize = limit - results.len();
            let room: usize = usize::MAX - seen;
            let page: usize = if wanted <= room {
                wanted
            } else {
                room
            };
            let w = Walk {
                cf,
                prefix: slice_to_vec(prefix.as_bytes().as_slice()),
                start,
                key_len: None,
                reverse: false,
                limit: page,
            };
            let rows = match self.db.scan(&w) {
                Ok(rows) => rows,
                Err(e) => return Err(e),
            };
            let n: usize = rows.len();
            proof {
                finite_rows_have_walks(self.rows(), index_walk(cf, *prefix));
                lemma_next_page(
                    self.rows(),
                    index_walk(cf, *prefix),
                    full,
                    seen as int,
                    page as nat,
                    views(rows@),
                    w@,
                );
            }
            let mut i: usize = 0;
            while i < n
                invariant
                    i <= n == rows@.len(),
                    seen + n <= full.len(),
                    views(rows@) == full.subrange(seen as int, seen + n),
                    full == walk(self.rows(), index_walk(cf, *prefix)),
                    queried(self.rows(), full.take(seen + i), limit as nat) == (
                        Ok::<Seq<(Digest, AccountModel)>, ErrorModel>(models(results@)),
                        true,
                    ),
                    results@.len() < limit,
                decreases n - i,
            {
                let key = rows[i].key.as_slice();
                proof {
                    assert(full.take(seen + i + 1).drop_last() =~= full.take(seen + i));
                    assert(views(rows@)[i as int] == rows@[i as int]@);
                    assert(full.take(seen + i + 1).last() == rows@[i as int]@);
                }
                if key.len() != 128 {
                    proof {
                        lemma_query_ended(self.rows(), full, limit as nat, seen + i + 1);
                    }
                    return Ok(results);
                }
                let address = Digest::from_slice(key, 64);
                proof {
                    lemma_digest_of(address);
                }
                let ghost before = results@;
                match self.get_account(&address) {
                    Ok(Some(account)) => {
                        results.push((address, account));
                        assert(models(results@) =~= models(before).push(
                            (address, account.model()),
                        ));
                    },
                    Ok(None) => {},
                    Err(e) => {
                        proof {
                            if !queried(self.rows(), full.take(seen + i + 1), limit as nat).1 {
                                lemma_query_ended(self.rows(), full, limit as nat, seen + i + 1);
                            }
                        }
                        return Err(e);
                    },
                }
                if results.len() >= limit {
                    proof {
                        lemma_query_ended(self.rows(), full, limit as nat, seen + i + 1);
                    }
                    return Ok(results);
                }
                i = i + 1;
            }
            if n < page {
                assert(full.take(seen + n) =~= full);
                return Ok(results);
            }
            let mut next: Vec<u8> = slice_to_vec(rows[n - 1].key.as_slice());
            next.push(0);
            proof {
                assert(views(rows@)[n - 1] == rows@[n - 1]@);
                assert(full[seen + n - 1].0 == rows@[n - 1].key@);
            }
            start = Some(next);
            seen = seen + n;
        }
        proof {
            if results@.len() < limit {
                assert(full.take(seen as int) =~= full);
            } else {
                lemma_query_ended(self.rows(), full, limit as nat, seen as int);
            }
        }
        Ok(results)
    }
}

/// An account is on the lists of an owner.
pub open spec fn on_lists(rows: Rows, address: Digest, owner: Digest) -> bool {
    &&& rows.contains_key((CF_OWNER_INDEX, owner_index_bytes(owner, address)))
    &&& rows.contains_key((CF_PROGRAM_INDEX, owner_index_bytes(owner, address)))
}

/// An account is on neither list of an owner.
pub open spec fn off_lists(rows: Rows, address: Digest, owner: Digest) -> bool {
    &&& !rows.contains_key((CF_OWNER_INDEX, owner_index_bytes(owner, address)))
    &&& !rows.contains_key((CF_PROGRAM_INDEX, owner_index_bytes(owner, address)))
}

/// Once the lists follow an account, it is on those of its owner and of no other, and
/// nothing but the lists of that account has changed.
pub proof fn index_follows_owner(
    rows: Rows,
    address: Digest,
    old_owner: Option<Digest>,
    new_owner: Digest,
)
    requires
        old_owner is Some ==> on_lists(rows, address, old_owner->0),
        forall|o: Digest|
            old_owner != Some(o) ==> #[trigger] off_lists(rows, address, o),
    ensures
        ({
            let after = apply(rows, index_ops(address, old_owner, new_owner));
            &&& on_lists(after, address, new_owner)
            &&& forall|o: Digest| o != new_owner ==> #[trigger] off_lists(after, address, o)
            &&& forall|cf: Cf, k: Seq<u8>|
                (cf != CF_OWNER_INDEX && cf != CF_PROGRAM_INDEX) || k.len() != 128 || k.subrange(
                    64,
                    128,
                ) != address@ ==> #[trigger] raw(after, cf, k) == raw(rows, cf, k)
        }),
{
    let ops = index_ops(address, old_owner, new_owner);
    let after = apply(rows, ops);
    let added = owner_index_bytes(new_owner, address);
    assert(added.subrange(64, 128) =~= address@);
    reveal_with_fuel(apply, 5);
    match old_owner {
        Some(o) => {
            let gone = owner_index_bytes(o, address);
            assert(gone.subrange(64, 128) =~= address@);
            owner_index_keys_are_distinct(o, address, new_owner, address);
            if o != new_owner {
                let d1 = Op::Delete(CF_OWNER_INDEX, gone);
                let d2 = Op::Delete(CF_PROGRAM_INDEX, gone);
                let p1 = Op::Put(CF_OWNER_INDEX, added, Seq::<u8>::empty());
                let p2 = Op::Put(CF_PROGRAM_INDEX, added, Seq::<u8>::empty());
                assert(ops =~= seq![d1, d2, p1, p2]);
                assert(ops.drop_last() =~= seq![d1, d2, p1]);
                assert(ops.drop_last().drop_last() =~= seq![d1, d2]);
                assert(ops.drop_last().drop_last().drop_last() =~= seq![d1]);
                assert(after == rows.remove((CF_OWNER_INDEX, gone)).remove(
                    (CF_PROGRAM_INDEX, gone),
                ).insert((CF_OWNER_INDEX, added), Seq::empty()).insert(
                    (CF_PROGRAM_INDEX, added),
                    Seq::empty(),
                ));
            } else {
                assert(after == rows);
            }
        },
        None => {
            let p1 = Op::Put(CF_OWNER_INDEX, added, Seq::<u8>::empty());
            let p2 = Op::Put(CF_PROGRAM_INDEX, added, Seq::<u8>::empty());
            assert(ops =~= seq![p1, p2]);
            assert(ops.drop_last() =~= seq![p1]);
            assert(after == rows.insert((CF_OWNER_INDEX, added), Seq::empty()).insert(
                (CF_PROGRAM_INDEX, added),
                Seq::empty(),
            ));
        },
    }
    assert forall|o: Digest| o != new_owner implies #[trigger] off_lists(after, address, o) by {
        owner_index_keys_are_distinct(o, address, new_owner, address);
        if old_owner is Some {
            owner_index_keys_are_distinct(o, address, old_owner->0, address);
        }
        if old_owner != Some(o) {
            assert(off_lists(rows, address, o));
        }
    }
}

/// Taking an account off the lists of its owner takes it off both, and leaves all other entries
/// and everything else.
pub proof fn unlisted_account_is_off_the_lists(
    rows: Rows,
    address: Digest,
    owner: Digest,
    cf: Cf,
    key: Seq<u8>,
)
    ensures
        ({
            let after = apply(rows, unlist_ops(address, owner));
            &&& off_lists(after, address, owner)
            &&& (cf != CF_OWNER_INDEX && cf != CF_PROGRAM_INDEX) || key != owner_index_bytes(
                owner,
                address,
            ) ==> raw(after, cf, key) == raw(rows, cf, key)
        }),
{
    let ops = unlist_ops(address, owner);
    let gone = owner_index_bytes(owner, address);
    reveal_with_fuel(apply, 3);
    assert(ops.drop_last() =~= seq![Op::Delete(CF_OWNER_INDEX, gone)]);
    assert(apply(rows, ops) == rows.remove((CF_OWNER_INDEX, gone)).remove(
        (CF_PROGRAM_INDEX, gone),
    ));
}

/// `list` gives the first accounts on a list, each with its latest version: at most `limit`, in
/// the order of their addresses, and none that the store has is passed over for a later one.
pub open spec fn is_member_list(
    rows: Rows,
    cf: Cf,
    prefix: Digest,
    limit: nat,
    list: Seq<(Digest, AccountModel)>,
) -> bool {
    &&& list.len() <= limit
    &&& forall|i: int, j: int|
        0 <= i < j < list.len() ==> lex_less((#[trigger] list[i]).0@, (#[trigger] list[j]).0@)
    &&& forall|i: int|
        0 <= i < list.len() ==> {
            let (address, account) = #[trigger] list[i];
            &&& rows.contains_key((cf, owner_index_bytes(prefix, address)))
            &&& latest_account(rows, address) == Ok::<Option<AccountModel>, ErrorModel>(
                Some(account),
            )
        }
    &&& forall|address: Digest|
        rows.contains_key((cf, #[trigger] owner_index_bytes(prefix, address))) ==> (latest_account(
            rows,
            address,
        ) matches Ok(Some(account)) ==> {
            ||| list.contains((address, account))
            ||| list.len() == limit && forall|i: int|
                0 <= i < list.len() ==> lex_less((#[trigger] list[i]).0@, address@)
        })
}

/// The accounts of an owner are complete: every account on the owner's list that the store has is
/// given with its latest version, in the order of their addresses, until the limit is reached. It
/// is that which was asked for, or a thousand.
pub proof fn accounts_of_owner_are_complete(rows: Rows, owner: Digest, limit: Option<usize>)
    requires
        rows.dom().finite(),
        rows.dom().len() < usize::MAX,
        forall|k: Seq<u8>| #[trigger] rows.contains_key((CF_OWNER_INDEX, k)) ==> k.len() == 128,
    ensures
        accounts_of_owner(rows, owner, limit) matches Ok(list) ==> is_member_list(
            rows,
            CF_OWNER_INDEX,
            owner,
            match limit {
                Some(n) => n as nat,
                None => 1000,
            },
            list,
        ),
        (forall|address: Digest| (#[trigger] latest_account(rows, address)) is Ok)
            ==> accounts_of_owner(rows, owner, limit) is Ok,
{
    lemma_listed(rows, CF_OWNER_INDEX, owner, query_limit(limit));
}

/// The accounts of a program are complete, as those of an owner are.
pub proof fn accounts_of_program_are_complete(rows: Rows, program: Digest, limit: Option<usize>)
    requires
        rows.dom().finite(),
        rows.dom().len() < usize::MAX,
        forall|k: Seq<u8>| #[trigger] rows.contains_key((CF_PROGRAM_INDEX, k)) ==> k.len() == 128,
    ensures
        accounts_of_program(rows, program, limit) matches Ok(list) ==> is_member_list(
            rows,
            CF_PROGRAM_INDEX,
            program,
            match limit {
                Some(n) => n as nat,
                None => 1000,
            },
            list,
        ),
        (forall|address: Digest| (#[trigger] latest_account(rows, address)) is Ok)
            ==> accounts_of_program(rows, program, limit) is Ok,
{
    lemma_listed(rows, CF_PROGRAM_INDEX, program, query_limit(limit));
}

/// The address in a row of a list.
spec fn member(row: (Seq<u8>, Seq<u8>)) -> Digest {
    digest_of(row.0.subrange(64, 128))
}

proof fn lemma_queried(rows: Rows, found: Seq<(Seq<u8>, Seq<u8>)>, limit: nat)
    requires
        forall|n: int| 0 <= n < found.len() ==> (#[trigger] found[n]).0.len() == 128,
        forall|n: int, m: int|
            0 <= n < m < found.len() ==> lex_less(
                member(#[trigger] found[n])@,
                member(#[trigger] found[m])@,
            ),
    ensures
        queried(rows, found, limit).0 is Err ==> exists|address: Digest|
            (#[trigger] latest_account(rows, address)) is Err,
        queried(rows, found, limit).0 matches Ok(list) ==> {
            &&& list.len() <= limit
            &&& queried(rows, found, limit).1 == (list.len() < limit)
            &&& forall|i: int, j: int|
                0 <= i < j < list.len() ==> lex_less(
                    (#[trigger] list[i]).0@,
                    (#[trigger] list[j]).0@,
                )
            &&& forall|i: int|
                0 <= i < list.len() ==> {
                    let (address, account) = #[trigger] list[i];
                    &&& latest_account(rows, address) == Ok::<Option<AccountModel>, ErrorModel>(
                        Some(account),
                    )
                    &&& exists|n: int| 0 <= n < found.len() && member(#[trigger] found[n]) == address
                }
            &&& forall|n: int|
                0 <= n < found.len() ==> (latest_account(rows, member(#[trigger] found[n])) matches Ok(
                    Some(account),
                ) ==> {
                    ||| list.contains((member(found[n]), account))
                    ||| list.len() == limit && forall|i: int|
                        0 <= i < list.len() ==> lex_less(
                            (#[trigger] list[i]).0@,
                            member(found[n])@,
                        )
                })
        },
    decreases found.len(),
{
    if found.len() > 0 {
        let front = found.drop_last();
        let at = found.len() - 1;
        assert forall|n: int| 0 <= n < front.len() implies (#[trigger] front[n]).0.len() == 128 by {
            assert(front[n] == found[n]);
        }
        assert forall|n: int, m: int| 0 <= n < m < front.len() implies lex_less(
            member(#[trigger] front[n])@,
            member(#[trigger] front[m])@,
        ) by {
            assert(front[n] == found[n] && front[m] == found[m]);
        }
        lemma_queried(rows, front, limit);
        assert(found[at].0.len() == 128);
        if queried(rows, found, limit).0 is Ok {
            let before = queried(rows, front, limit).0->Ok_0;
            let list = queried(rows, found, limit).0->Ok_0;
            assert forall|i: int| 0 <= i < list.len() implies {
                let (address, account) = #[trigger] list[i];
                &&& latest_account(rows, address) == Ok::<Option<AccountModel>, ErrorModel>(
                    Some(account),
                )
                &&& exists|n: int| 0 <= n < found.len() && member(#[trigger] found[n]) == address
            } by {
                if i < before.len() {
                    assert(before[i] == list[i]);
                    let n = choose|n: int|
                        0 <= n < front.len() && member(#[trigger] front[n]) == before[i].0;
                    assert(member(found[n]) == list[i].0);
                } else {
                    assert(member(found[at]) == list[i].0);
                }
            }
            assert forall|i: int| 0 <= i < before.len() implies lex_less(
                (#[trigger] before[i]).0@,
                member(found[at])@,
            ) by {
                let n = choose|n: int|
                    0 <= n < front.len() && member(#[trigger] front[n]) == before[i].0;
                assert(lex_less(member(found[n])@, member(found[at])@));
            }
            assert forall|i: int, j: int| 0 <= i < j < list.len() implies lex_less(
                (#[trigger] list[i]).0@,
                (#[trigger] list[j]).0@,
            ) by {
                assert(before[i] == list[i]);
                if j < before.len() {
                    assert(before[j] == list[j]);
                }
            }
            assert forall|n: int| 0 <= n < found.len() implies (latest_account(
                rows,
                member(#[trigger] found[n]),
            ) matches Ok(Some(account)) ==> {
                ||| list.contains((member(found[n]), account))
                ||| list.len() == limit && forall|i: int|
                    0 <= i < list.len() ==> lex_less((#[trigger] list[i]).0@, member(found[n])@)
            }) by {
                let got = latest_account(rows, member(found[n]));
                if got is Ok && got->Ok_0 is Some {
                    let item = (member(found[n]), got->Ok_0->0);
                    if n < at {
                        assert(front[n] == found[n]);
                        if before.contains(item) {
                            let i = choose|i: int| 0 <= i < before.len() && before[i] == item;
                            assert(list[i] == item);
                        } else {
                            assert(list == before);
                        }
                    } else if queried(rows, front, limit).1 {
                        assert(list[list.len() - 1] == item);
                    } else {
                        assert(list == before);
                    }
                }
            }
        }
    }
}

proof fn lemma_listed(rows: Rows, cf: Cf, prefix: Digest, limit: nat)
    requires
        rows.dom().finite(),
        rows.dom().len() < usize::MAX,
        forall|k: Seq<u8>| #[trigger] rows.contains_key((cf, k)) ==> k.len() == 128,
    ensures
        listed(rows, cf, prefix, limit) matches Ok(list) ==> is_member_list(
            rows,
            cf,
            prefix,
            limit,
            list,
        ),
        (forall|address: Digest| (#[trigger] latest_account(rows, address)) is Ok) ==> listed(
            rows,
            cf,
            prefix,
            limit,
        ) is Ok,
{
    let w = index_walk(cf, prefix);
    finite_rows_have_walks(rows, w);
    let found = walk(rows, w);
    walk_is_within_rows(rows, w, found);
    assert forall|n: int| 0 <= n < found.len() implies {
        &&& (#[trigger] found[n]).0.len() == 128
        &&& found[n].0 == owner_index_bytes(prefix, member(found[n]))
        &&& rows.contains_key((cf, found[n].0))
    } by {
        let k = found[n].0;
        assert(rows.contains_key((cf, k)));
        assert(on_walk(w, k));
        lemma_digest_bytes(k.subrange(64, 128));
        assert(k.subrange(0, 64) == prefix@);
        assert(k =~= k.subrange(0, 64) + k.subrange(64, 128));
    }
    assert forall|n: int, m: int| 0 <= n < m < found.len() implies lex_less(
        member(#[trigger] found[n])@,
        member(#[trigger] found[m])@,
    ) by {
        assert(comes_before(false, found[n].0, found[m].0));
        lemma_lex_common_prefix(prefix@, member(found[n])@, member(found[m])@);
    }
    lemma_queried(rows, found, limit);
    if listed(rows, cf, prefix, limit) is Ok {
        let list = listed(rows, cf, prefix, limit)->Ok_0;
        assert forall|i: int| 0 <= i < list.len() implies rows.contains_key(
            (cf, owner_index_bytes(prefix, (#[trigger] list[i]).0)),
        ) by {
            let n = choose|n: int|
                0 <= n < found.len() && member(#[trigger] found[n]) == list[i].0;
            assert(rows.contains_key((cf, found[n].0)));
        }
        assert forall|address: Digest|
            rows.contains_key(
                (cf, #[trigger] owner_index_bytes(prefix, address)),
            ) implies (latest_account(rows, address) matches Ok(Some(account)) ==> {
            ||| list.contains((address, account))
            ||| list.len() == limit && forall|i: int|
                0 <= i < list.len() ==> lex_less((#[trigger] list[i]).0@, address@)
        }) by {
            let k = owner_index_bytes(prefix, address);
            assert(k.subrange(0, 64) =~= prefix@);
            assert(on_walk(w, k));
            assert(reached(w, found, k));
            let n = choose|n: int| 0 <= n < found.len() && (#[trigger] found[n]).0 == k;
            owner_index_keys_are_distinct(prefix, address, prefix, member(found[n]));
            assert(member(found[n]) == address);
        }
        assert(is_member_list(rows, cf, prefix, limit, list));
    }
}

} // verus!
