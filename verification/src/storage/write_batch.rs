//! Changes that are collected first and then made at once.

use crate::bytes::lex_less;
use crate::storage::cf::Cf;
use vstd::prelude::*;
use vstd::slice::slice_to_vec;

verus! {

/// What the store holds: a value for each of some keys, in each column family.
pub type Rows = Map<(Cf, Seq<u8>), Seq<u8>>;

/// One change.
pub enum BatchOp {
    Put { cf: Cf, key: Vec<u8>, value: Vec<u8> },
    Delete { cf: Cf, key: Vec<u8> },
    /// Deletes the keys from `start` on that come before `end`.
    DeleteRange { cf: Cf, start: Vec<u8>, end: Vec<u8> },
}

/// One change, as a mathematical value.
pub enum Op {
    Put(Cf, Seq<u8>, Seq<u8>),
    Delete(Cf, Seq<u8>),
    DeleteRange(Cf, Seq<u8>, Seq<u8>),
}

impl View for BatchOp {
    type V = Op;

    open spec fn view(&self) -> Op {
        match self {
            BatchOp::Put { cf, key, value } => Op::Put(*cf, key@, value@),
            BatchOp::Delete { cf, key } => Op::Delete(*cf, key@),
            BatchOp::DeleteRange { cf, start, end } => Op::DeleteRange(*cf, start@, end@),
        }
    }
}

impl BatchOp {
    /// A copy of the change.
    pub fn copy(&self) -> (r: BatchOp)
        ensures
            r@ == self@,
    {
        match self {
            BatchOp::Put { cf, key, value } => BatchOp::Put {
                cf: *cf,
                key: slice_to_vec(key.as_slice()),
                value: slice_to_vec(value.as_slice()),
            },
            BatchOp::Delete { cf, key } => BatchOp::Delete {
                cf: *cf,
                key: slice_to_vec(key.as_slice()),
            },
            BatchOp::DeleteRange { cf, start, end } => BatchOp::DeleteRange {
                cf: *cf,
                start: slice_to_vec(start.as_slice()),
                end: slice_to_vec(end.as_slice()),
            },
        }
    }
}

/// Keys from `start` on that come before `end`.
pub open spec fn in_range(k: Seq<u8>, start: Seq<u8>, end: Seq<u8>) -> bool {
    !lex_less(k, start) && lex_less(k, end)
}

/// What one change makes of the store.
pub open spec fn apply_op(rows: Rows, op: Op) -> Rows {
    match op {
        Op::Put(cf, key, value) => rows.insert((cf, key), value),
        Op::Delete(cf, key) => rows.remove((cf, key)),
        Op::DeleteRange(cf, start, end) => rows.remove_keys(
            Set::new(|k: (Cf, Seq<u8>)| k.0 == cf && in_range(k.1, start, end)),
        ),
    }
}

/// What changes make of the store, one after the other.
pub open spec fn apply(rows: Rows, ops: Seq<Op>) -> Rows
    decreases ops.len(),
{
    if ops.len() == 0 {
        rows
    } else {
        apply_op(apply(rows, ops.drop_last()), ops.last())
    }
}

/// Changes leave finitely many rows where there were finitely many.
pub proof fn changes_keep_rows_finite(rows: Rows, ops: Seq<Op>)
    requires
        rows.dom().finite(),
    ensures
        apply(rows, ops).dom().finite(),
    decreases ops.len(),
{
    if ops.len() > 0 {
        changes_keep_rows_finite(rows, ops.drop_last());
        let before = apply(rows, ops.drop_last());
        let after = apply(rows, ops);
        match ops.last() {
            Op::Put(cf, key, value) => {
                assert(after.dom() =~= before.dom().insert((cf, key)));
            },
            Op::Delete(cf, key) => {
                assert(after.dom() =~= before.dom().remove((cf, key)));
            },
            Op::DeleteRange(cf, start, end) => {
                vstd::set_lib::lemma_len_subset(after.dom(), before.dom());
            },
        }
    }
}

/// Whether a change touches a key.
pub open spec fn touches(op: Op, cf: Cf, key: Seq<u8>) -> bool {
    match op {
        Op::Put(c, k, _) => c == cf && k == key,
        Op::Delete(c, k) => c == cf && k == key,
        Op::DeleteRange(c, start, end) => c == cf && in_range(key, start, end),
    }
}

/// Changes in a row are those of the first part, then those of the second.
pub proof fn lemma_apply_concat(rows: Rows, a: Seq<Op>, b: Seq<Op>)
    ensures
        apply(rows, a + b) == apply(apply(rows, a), b),
    decreases b.len(),
{
    if b.len() == 0 {
        assert(a + b =~= a);
    } else {
        lemma_apply_concat(rows, a, b.drop_last());
        assert((a + b).drop_last() =~= a + b.drop_last());
        assert((a + b).last() == b.last());
    }
}

/// A key that no change touches keeps its value.
pub proof fn lemma_apply_untouched(rows: Rows, ops: Seq<Op>, cf: Cf, key: Seq<u8>)
    requires
        forall|i: int| 0 <= i < ops.len() ==> !touches(#[trigger] ops[i], cf, key),
    ensures
        apply(rows, ops).contains_key((cf, key)) == rows.contains_key((cf, key)),
        rows.contains_key((cf, key)) ==> apply(rows, ops)[(cf, key)] == rows[(cf, key)],
    decreases ops.len(),
{
    if ops.len() > 0 {
        let front = ops.drop_last();
        assert forall|i: int| 0 <= i < front.len() implies !touches(#[trigger] front[i], cf, key) by {
            assert(front[i] == ops[i]);
        }
        lemma_apply_untouched(rows, front, cf, key);
        assert(!touches(ops[ops.len() - 1], cf, key));
    }
}

/// A key has the value that the last change to touch it gave it.
pub proof fn lemma_apply_put(rows: Rows, ops: Seq<Op>, at: int)
    requires
        0 <= at < ops.len(),
        ops[at] is Put,
        forall|i: int|
            at < i < ops.len() ==> !touches(#[trigger] ops[i], ops[at]->Put_0, ops[at]->Put_1),
    ensures
        apply(rows, ops).contains_key((ops[at]->Put_0, ops[at]->Put_1)),
        apply(rows, ops)[(ops[at]->Put_0, ops[at]->Put_1)] == ops[at]->Put_2,
    decreases ops.len(),
{
    let front = ops.drop_last();
    if at < front.len() {
        assert(front[at] == ops[at]);
        assert forall|i: int| at < i < front.len() implies !touches(
            #[trigger] front[i],
            ops[at]->Put_0,
            ops[at]->Put_1,
        ) by {
            assert(front[i] == ops[i]);
        }
        lemma_apply_put(rows, front, at);
        assert(!touches(ops[ops.len() - 1], ops[at]->Put_0, ops[at]->Put_1));
    }
}

/// A key that the last change to touch it deleted is gone.
pub proof fn lemma_apply_delete(rows: Rows, ops: Seq<Op>, at: int, cf: Cf, key: Seq<u8>)
    requires
        0 <= at < ops.len(),
        !(ops[at] is Put),
        touches(ops[at], cf, key),
        forall|i: int| at < i < ops.len() ==> !touches(#[trigger] ops[i], cf, key),
    ensures
        !apply(rows, ops).contains_key((cf, key)),
    decreases ops.len(),
{
    let front = ops.drop_last();
    if at < front.len() {
        assert(front[at] == ops[at]);
        assert forall|i: int| at < i < front.len() implies !touches(
            #[trigger] front[i],
            cf,
            key,
        ) by {
            assert(front[i] == ops[i]);
        }
        lemma_apply_delete(rows, front, at, cf, key);
        assert(!touches(ops[ops.len() - 1], cf, key));
    }
}

/// Changes that are collected before they are made at once.
pub struct StorageWriteBatch {
    pub ops: Vec<BatchOp>,
}

impl View for StorageWriteBatch {
    type V = Seq<Op>;

    open spec fn view(&self) -> Seq<Op> {
        self.ops@.map_values(|op: BatchOp| op@)
    }
}

impl Default for StorageWriteBatch {
    fn default() -> (r: Self)
        ensures
            r@ == Seq::<Op>::empty(),
    {
        Self::new()
    }
}

impl StorageWriteBatch {
    /// No changes.
    pub fn new() -> (r: Self)
        ensures
            r@ == Seq::<Op>::empty(),
    {
        let r = StorageWriteBatch { ops: Vec::new() };
        assert(r@ =~= Seq::<Op>::empty());
        r
    }

    fn push(&mut self, op: BatchOp)
        ensures
            final(self)@ == old(self)@.push(op@),
    {
        self.ops.push(op);
        assert(self@ =~= old(self)@.push(op@));
    }

    /// Adds a key with its value.
    pub fn put(&mut self, cf: Cf, key: Vec<u8>, value: Vec<u8>)
        ensures
            final(self)@ == old(self)@.push(Op::Put(cf, key@, value@)),
    {
        self.push(BatchOp::Put { cf, key, value });
    }

    /// Adds the removal of a key.
    pub fn delete(&mut self, cf: Cf, key: Vec<u8>)
        ensures
            final(self)@ == old(self)@.push(Op::Delete(cf, key@)),
    {
        self.push(BatchOp::Delete { cf, key });
    }

    /// Adds the removal of the keys from `start` on that come before `end`.
    pub fn delete_range(&mut self, cf: Cf, start: Vec<u8>, end: Vec<u8>)
        ensures
            final(self)@ == old(self)@.push(Op::DeleteRange(cf, start@, end@)),
    {
        self.push(BatchOp::DeleteRange { cf, start, end });
    }

    /// Adds a copy of the changes of another batch.
    pub fn merge(&mut self, other: &StorageWriteBatch)
        ensures
            final(self)@ == old(self)@ + other@,
    {
        let n: usize = other.ops.len();
        let mut i: usize = 0;
        assert(self@ =~= old(self)@ + other@.take(0));
        while i < n
            invariant
                i <= n == other.ops@.len(),
                self@ == old(self)@ + other@.take(i as int),
            decreases n - i,
        {
            self.push(other.ops[i].copy());
            i = i + 1;
            assert(self@ =~= old(self)@ + other@.take(i as int));
        }
        assert(other@.take(n as int) =~= other@);
    }

    /// Adds the changes of another batch.
    pub fn merge_owned(&mut self, other: StorageWriteBatch)
        ensures
            final(self)@ == old(self)@ + other@,
    {
        let mut other = other;
        let ghost more = other@;
        self.ops.append(&mut other.ops);
        assert(self@ =~= old(self)@ + more);
    }

    pub fn is_empty(&self) -> (r: bool)
        ensures
            r == (self@.len() == 0),
    {
        self.ops.len() == 0
    }

    pub fn len(&self) -> (r: usize)
        ensures
            r == self@.len(),
    {
        self.ops.len()
    }
}

} // verus!
