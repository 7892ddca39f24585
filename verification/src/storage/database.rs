//! The database under the store.

use crate::bytes::{
    lemma_lex_irreflexive, lemma_lex_next, lemma_lex_total, lemma_lex_transitive, lex_less,
};
use crate::storage::cf::Cf;
use crate::storage::error::StorageError;
use crate::storage::write_batch::{apply, Rows, StorageWriteBatch};
use vstd::prelude::*;

verus! {

/// A key with its value.
#[derive(Debug, PartialEq, Eq)]
pub struct Row {
    pub key: Vec<u8>,
    pub value: Vec<u8>,
}

impl View for Row {
    type V = (Seq<u8>, Seq<u8>);

    open spec fn view(&self) -> (Seq<u8>, Seq<u8>) {
        (self.key@, self.value@)
    }
}

pub open spec fn views(rows: Seq<Row>) -> Seq<(Seq<u8>, Seq<u8>)> {
    rows.map_values(|r: Row| r@)
}

/// Which rows of a column family are walked, and in what order.
pub struct Walk {
    pub cf: Cf,
    /// The keys walked begin with these bytes.
    pub prefix: Vec<u8>,
    /// The key that the walk starts from, if not from the first one.
    pub start: Option<Vec<u8>>,
    /// The length of the keys walked, if only those of one length are.
    pub key_len: Option<usize>,
    /// From the last key to the first.
    pub reverse: bool,
    /// The walk ends after so many rows.
    pub limit: usize,
}

/// A walk, as a mathematical value.
pub struct WalkModel {
    pub cf: Cf,
    pub prefix: Seq<u8>,
    pub start: Option<Seq<u8>>,
    pub key_len: Option<usize>,
    pub reverse: bool,
    pub limit: nat,
}

impl View for Walk {
    type V = WalkModel;

    open spec fn view(&self) -> WalkModel {
        WalkModel {
            cf: self.cf,
            prefix: self.prefix@,
            start: match self.start {
                Some(s) => Some(s@),
                None => None,
            },
            key_len: self.key_len,
            reverse: self.reverse,
            limit: self.limit as nat,
        }
    }
}

pub open spec fn has_prefix(k: Seq<u8>, prefix: Seq<u8>) -> bool {
    k.len() >= prefix.len() && k.subrange(0, prefix.len() as int) == prefix
}

/// Which of two keys a walk comes to first.
pub open spec fn comes_before(reverse: bool, a: Seq<u8>, b: Seq<u8>) -> bool {
    if reverse {
        lex_less(b, a)
    } else {
        lex_less(a, b)
    }
}

/// Whether a key lies on a walk, if the walk goes on long enough.
pub open spec fn on_walk(w: WalkModel, k: Seq<u8>) -> bool {
    &&& has_prefix(k, w.prefix)
    &&& w.start is Some ==> !comes_before(w.reverse, k, w.start->0)
    &&& w.key_len is Some ==> k.len() == w.key_len->0
}

/// The rows of a walk: those on it, in its order, up to its limit.
pub open spec fn walked(rows: Rows, w: WalkModel, out: Seq<(Seq<u8>, Seq<u8>)>) -> bool {
    &&& out.len() <= w.limit
    &&& forall|i: int|
        0 <= i < out.len() ==> {
            let row = #[trigger] out[i];
            rows.contains_key((w.cf, row.0)) && rows[(w.cf, row.0)] == row.1 && on_walk(w, row.0)
        }
    &&& forall|i: int, j: int|
        0 <= i < j < out.len() ==> comes_before(
            w.reverse,
            (#[trigger] out[i]).0,
            (#[trigger] out[j]).0,
        )
    &&& forall|k: Seq<u8>|
        #[trigger] rows.contains_key((w.cf, k)) && on_walk(w, k) ==> reached(w, out, k)
}

/// The walk came to the key, or ended before it did.
pub open spec fn reached(w: WalkModel, out: Seq<(Seq<u8>, Seq<u8>)>, k: Seq<u8>) -> bool {
    ||| exists|i: int| 0 <= i < out.len() && (#[trigger] out[i]).0 == k
    ||| out.len() == w.limit && (out.len() > 0 ==> comes_before(w.reverse, out.last().0, k))
}

proof fn lemma_walk_place(
    rows: Rows,
    w: WalkModel,
    a: Seq<(Seq<u8>, Seq<u8>)>,
    b: Seq<(Seq<u8>, Seq<u8>)>,
    n: int,
)
    requires
        walked(rows, w, a),
        walked(rows, w, b),
        0 <= n < a.len(),
        0 <= n < b.len(),
        forall|i: int| 0 <= i < n ==> a[i] == b[i],
    ensures
        !comes_before(w.reverse, a[n].0, b[n].0),
{
    let k = a[n].0;
    assert(rows.contains_key((w.cf, k)) && on_walk(w, k));
    assert(reached(w, b, k));
    if comes_before(w.reverse, a[n].0, b[n].0) {
        lemma_lex_irreflexive(k);
        if exists|i: int| 0 <= i < b.len() && (#[trigger] b[i]).0 == k {
            let i = choose|i: int| 0 <= i < b.len() && (#[trigger] b[i]).0 == k;
            if i < n {
                assert(a[i] == b[i]);
                assert(comes_before(w.reverse, a[i].0, a[n].0));
            } else if i > n {
                assert(comes_before(w.reverse, b[n].0, b[i].0));
                if w.reverse {
                    lemma_lex_transitive(k, b[n].0, k);
                } else {
                    lemma_lex_transitive(k, b[n].0, k);
                }
            }
        } else {
            let last = b.last().0;
            if n < b.len() - 1 {
                assert(comes_before(w.reverse, b[n].0, b[b.len() - 1].0));
                if w.reverse {
                    lemma_lex_transitive(k, last, b[n].0);
                } else {
                    lemma_lex_transitive(b[n].0, last, k);
                }
            }
            if w.reverse {
                lemma_lex_transitive(k, b[n].0, k);
            } else {
                lemma_lex_transitive(k, b[n].0, k);
            }
        }
    }
}

proof fn lemma_walk_prefix(
    rows: Rows,
    w: WalkModel,
    a: Seq<(Seq<u8>, Seq<u8>)>,
    b: Seq<(Seq<u8>, Seq<u8>)>,
    n: int,
)
    requires
        walked(rows, w, a),
        walked(rows, w, b),
        0 <= n <= a.len(),
        0 <= n <= b.len(),
    ensures
        forall|i: int| 0 <= i < n ==> a[i] == b[i],
    decreases n,
{
    if n > 0 {
        lemma_walk_prefix(rows, w, a, b, n - 1);
        lemma_walk_place(rows, w, a, b, n - 1);
        lemma_walk_place(rows, w, b, a, n - 1);
        lemma_lex_total(a[n - 1].0, b[n - 1].0);
        assert(a[n - 1].0 == b[n - 1].0);
        assert(a[n - 1].1 == rows[(w.cf, a[n - 1].0)]);
        assert(b[n - 1].1 == rows[(w.cf, b[n - 1].0)]);
    }
}

/// A walk has one outcome.
pub proof fn walk_is_deterministic(
    rows: Rows,
    w: WalkModel,
    a: Seq<(Seq<u8>, Seq<u8>)>,
    b: Seq<(Seq<u8>, Seq<u8>)>,
)
    requires
        walked(rows, w, a),
        walked(rows, w, b),
    ensures
        a == b,
    decreases a.len(),
{
    if a.len() > b.len() {
        walk_is_deterministic(rows, w, b, a);
    } else {
        lemma_walk_prefix(rows, w, a, b, a.len() as int);
        if a.len() < b.len() {
            let n = a.len() as int;
            let k = b[n].0;
            assert(rows.contains_key((w.cf, k)) && on_walk(w, k));
            assert(reached(w, a, k));
            let i = choose|i: int| 0 <= i < a.len() && (#[trigger] a[i]).0 == k;
            assert(comes_before(w.reverse, b[i].0, b[n].0));
            lemma_lex_irreflexive(k);
        }
        assert(a =~= b);
    }
}

/// The rows of a walk: those that `walked` tells, which there are wherever the rows are
/// finitely many.
pub open spec fn walk(rows: Rows, w: WalkModel) -> Seq<(Seq<u8>, Seq<u8>)> {
    choose|out: Seq<(Seq<u8>, Seq<u8>)>| walked(rows, w, out)
}

/// What comes back from a walk is the rows of the walk.
pub proof fn lemma_walk(rows: Rows, w: WalkModel, out: Seq<(Seq<u8>, Seq<u8>)>)
    requires
        walked(rows, w, out),
    ensures
        out == walk(rows, w),
        walked(rows, w, walk(rows, w)),
{
    walk_is_deterministic(rows, w, out, walk(rows, w));
}

/// Keys in the order in which a walk comes to them.
pub open spec fn in_walk_order(reverse: bool, keys: Seq<Seq<u8>>) -> bool {
    forall|i: int, j: int|
        0 <= i < j < keys.len() ==> comes_before(reverse, #[trigger] keys[i], #[trigger] keys[j])
}

proof fn lemma_before_transitive(reverse: bool, a: Seq<u8>, b: Seq<u8>, c: Seq<u8>)
    requires
        comes_before(reverse, a, b),
        comes_before(reverse, b, c),
    ensures
        comes_before(reverse, a, c),
{
    if reverse {
        lemma_lex_transitive(c, b, a);
    } else {
        lemma_lex_transitive(a, b, c);
    }
}

/// One more key, put in its place.
#[verifier::rlimit(40)]
proof fn lemma_put_in_place(reverse: bool, keys: Seq<Seq<u8>>, k: Seq<u8>) -> (out: Seq<Seq<u8>>)
    requires
        in_walk_order(reverse, keys),
        !keys.contains(k),
    ensures
        in_walk_order(reverse, out),
        forall|x: Seq<u8>| #[trigger] out.contains(x) == (keys.contains(x) || x == k),
    decreases keys.len(),
{
    if keys.len() > 0 && !comes_before(reverse, keys.last(), k) {
        let last = keys.last();
        let front = keys.drop_last();
        assert(keys[keys.len() - 1] == last);
        lemma_lex_total(last, k);
        assert(comes_before(reverse, k, last));
        assert(!front.contains(k)) by {
            if front.contains(k) {
                let i = choose|i: int| 0 <= i < front.len() && front[i] == k;
                assert(keys[i] == k);
            }
        }
        assert forall|i: int, j: int| 0 <= i < j < front.len() implies comes_before(
            reverse,
            #[trigger] front[i],
            #[trigger] front[j],
        ) by {
            assert(comes_before(reverse, keys[i], keys[j]));
        }
        let put = lemma_put_in_place(reverse, front, k);
        let out = put.push(last);
        assert forall|i: int, j: int| 0 <= i < j < out.len() implies comes_before(
            reverse,
            #[trigger] out[i],
            #[trigger] out[j],
        ) by {
            if j < put.len() {
                assert(comes_before(reverse, put[i], put[j]));
            } else {
                assert(put.contains(put[i]));
                if front.contains(put[i]) {
                    let x = choose|x: int| 0 <= x < front.len() && front[x] == put[i];
                    assert(comes_before(reverse, keys[x], keys[keys.len() - 1]));
                }
            }
        }
        assert forall|x: Seq<u8>| #[trigger] out.contains(x) == (keys.contains(x) || x == k) by {
            if out.contains(x) {
                let i = choose|i: int| 0 <= i < out.len() && out[i] == x;
                if i < put.len() {
                    assert(put.contains(put[i]));
                    if front.contains(x) {
                        let j = choose|j: int| 0 <= j < front.len() && front[j] == x;
                        assert(keys[j] == x);
                    }
                }
            }
            if keys.contains(x) {
                let j = choose|j: int| 0 <= j < keys.len() && keys[j] == x;
                if j < front.len() {
                    assert(front[j] == x);
                    assert(put.contains(x));
                    let i = choose|i: int| 0 <= i < put.len() && put[i] == x;
                    assert(out[i] == x);
                } else {
                    assert(out[put.len() as int] == x);
                }
            }
            if x == k {
                assert(put.contains(k));
                let i = choose|i: int| 0 <= i < put.len() && put[i] == k;
                assert(out[i] == k);
            }
        }
        out
    } else {
        let out = keys.push(k);
        assert forall|i: int, j: int| 0 <= i < j < out.len() implies comes_before(
            reverse,
            #[trigger] out[i],
            #[trigger] out[j],
        ) by {
            if j < keys.len() {
                assert(comes_before(reverse, keys[i], keys[j]));
            } else if i < keys.len() - 1 {
                assert(comes_before(reverse, keys[i], keys[keys.len() - 1]));
                lemma_before_transitive(reverse, keys[i], keys.last(), k);
            }
        }
        assert forall|x: Seq<u8>| #[trigger] out.contains(x) == (keys.contains(x) || x == k) by {
            if keys.contains(x) {
                let j = choose|j: int| 0 <= j < keys.len() && keys[j] == x;
                assert(out[j] == x);
            }
            assert(out[keys.len() as int] == k);
        }
        out
    }
}

/// Finitely many keys can be put in the order of a walk.
proof fn lemma_in_order(reverse: bool, keys: Set<Seq<u8>>) -> (out: Seq<Seq<u8>>)
    requires
        keys.finite(),
    ensures
        in_walk_order(reverse, out),
        forall|k: Seq<u8>| #[trigger] out.contains(k) == keys.contains(k),
    decreases keys.len(),
{
    if keys.len() == 0 {
        let out = Seq::<Seq<u8>>::empty();
        assert(keys =~= Set::empty());
        out
    } else {
        let k = keys.choose();
        let rest = lemma_in_order(reverse, keys.remove(k));
        let out = lemma_put_in_place(reverse, rest, k);
        assert forall|x: Seq<u8>| #[trigger] out.contains(x) == keys.contains(x) by {
            assert(rest.contains(x) == keys.remove(k).contains(x));
        }
        out
    }
}

/// Every walk over finitely many rows has an outcome, and `walk` is that outcome.
pub proof fn finite_rows_have_walks(rows: Rows, w: WalkModel)
    requires
        rows.dom().finite(),
    ensures
        walked(rows, w, walk(rows, w)),
{
    let keys = Set::new(|k: Seq<u8>| rows.contains_key((w.cf, k)) && on_walk(w, k));
    let second = |row: (Cf, Seq<u8>)| row.1;
    rows.dom().lemma_map_finite(second);
    assert(keys.subset_of(rows.dom().map(second))) by {
        assert forall|k: Seq<u8>| keys.contains(k) implies rows.dom().map(second).contains(k) by {
            assert(rows.dom().contains((w.cf, k)));
            assert(second((w.cf, k)) == k);
        }
    }
    vstd::set_lib::lemma_len_subset(keys, rows.dom().map(second));
    let all = lemma_in_order(w.reverse, keys);
    let n = if all.len() <= w.limit {
        all.len()
    } else {
        w.limit
    };
    let out = Seq::new(n, |i: int| (all[i], rows[(w.cf, all[i])]));
    assert forall|i: int| 0 <= i < out.len() implies {
        let row = #[trigger] out[i];
        rows.contains_key((w.cf, row.0)) && rows[(w.cf, row.0)] == row.1 && on_walk(w, row.0)
    } by {
        assert(all.contains(all[i]));
        assert(keys.contains(all[i]));
    }
    assert forall|k: Seq<u8>|
        #[trigger] rows.contains_key((w.cf, k)) && on_walk(w, k) implies reached(w, out, k) by {
        assert(keys.contains(k));
        assert(all.contains(k));
        let i = choose|i: int| 0 <= i < all.len() && all[i] == k;
        if i < n {
            assert(out[i].0 == k);
        } else if n > 0 {
            assert(comes_before(w.reverse, all[n - 1], all[i]));
            assert(out.last().0 == all[n - 1]);
        }
    }
    assert(walked(rows, w, out));
    lemma_walk(rows, w, out);
}

/// A walk comes to no more rows than there are.
pub proof fn walk_is_within_rows(rows: Rows, w: WalkModel, out: Seq<(Seq<u8>, Seq<u8>)>)
    requires
        rows.dom().finite(),
        walked(rows, w, out),
    ensures
        out.len() <= rows.dom().len(),
{
    let keys = Seq::new(out.len(), |i: int| (w.cf, out[i].0));
    assert forall|i: int, j: int| 0 <= i < j < keys.len() implies keys[i] != keys[j] by {
        assert(comes_before(w.reverse, out[i].0, out[j].0));
        lemma_lex_irreflexive(out[i].0);
    }
    assert(keys.no_duplicates());
    keys.unique_seq_to_set();
    assert(keys.to_set().subset_of(rows.dom())) by {
        assert forall|k: (Cf, Seq<u8>)| keys.to_set().contains(k) implies rows.dom().contains(k) by {
            let i = choose|i: int| 0 <= i < keys.len() && keys[i] == k;
            assert(rows.contains_key((w.cf, out[i].0)));
        }
    }
    vstd::set_lib::lemma_len_subset(keys.to_set(), rows.dom());
}

/// A walk that starts behind the rows that another one has given goes on where that one
/// has come to.
#[verifier::rlimit(40)]
pub proof fn lemma_next_page(
    rows: Rows,
    w: WalkModel,
    full: Seq<(Seq<u8>, Seq<u8>)>,
    seen: int,
    page: nat,
    out: Seq<(Seq<u8>, Seq<u8>)>,
    v: WalkModel,
)
    requires
        walked(rows, w, full),
        w.start is None,
        !w.reverse,
        0 <= seen <= full.len(),
        seen + page <= w.limit,
        v == (WalkModel {
            start: if seen == 0 {
                None
            } else {
                Some(full[seen - 1].0.push(0))
            },
            limit: page,
            ..w
        }),
        walked(rows, v, out),
    ensures
        seen + out.len() <= full.len(),
        out == full.subrange(seen, seen + out.len()),
        out.len() < page ==> seen + out.len() == full.len(),
{
    let end = if seen + page <= full.len() {
        seen + page
    } else {
        full.len() as int
    };
    let part = full.subrange(seen, end);
    assert forall|i: int| 0 <= i < part.len() implies {
        let row = #[trigger] part[i];
        rows.contains_key((v.cf, row.0)) && rows[(v.cf, row.0)] == row.1 && on_walk(v, row.0)
    } by {
        let row = full[seen + i];
        assert(rows.contains_key((w.cf, row.0)) && on_walk(w, row.0));
        if seen > 0 {
            assert(comes_before(false, full[seen - 1].0, full[seen + i].0));
            lemma_lex_next(full[seen - 1].0, row.0);
        }
    }
    assert forall|i: int, j: int| 0 <= i < j < part.len() implies comes_before(
        v.reverse,
        (#[trigger] part[i]).0,
        (#[trigger] part[j]).0,
    ) by {
        assert(comes_before(w.reverse, full[seen + i].0, full[seen + j].0));
    }
    assert forall|k: Seq<u8>|
        #[trigger] rows.contains_key((v.cf, k)) && on_walk(v, k) implies reached(v, part, k) by {
        assert(on_walk(w, k));
        assert(reached(w, full, k));
        if exists|i: int| 0 <= i < full.len() && (#[trigger] full[i]).0 == k {
            let i = choose|i: int| 0 <= i < full.len() && (#[trigger] full[i]).0 == k;
            if i < seen {
                let last = full[seen - 1].0;
                lemma_lex_next(last, k);
                if i < seen - 1 {
                    assert(comes_before(false, full[i].0, full[seen - 1].0));
                    lemma_lex_transitive(k, last, k);
                }
                lemma_lex_irreflexive(k);
            } else if i < end {
                assert(part[i - seen].0 == k);
            } else if part.len() > 0 {
                assert(comes_before(false, full[end - 1].0, full[i].0));
            }
        } else if part.len() > 0 {
            if end < full.len() {
                assert(comes_before(false, full[end - 1].0, full[full.len() - 1].0));
                lemma_lex_transitive(full[end - 1].0, full.last().0, k);
            }
        }
    }
    walk_is_deterministic(rows, v, part, out);
}

/// A failure of the database itself, as opposed to one of what it holds.
pub open spec fn is_database_failure(e: StorageError) -> bool {
    e is RocksDb || e is CfNotFound
}

/// A database of column families whose keys are in dictionary order.
pub trait Database: Sized {
    /// What the database holds. A database that does not say holds what its state comes down
    /// to, and nothing more is known of it than the methods tell.
    open spec fn rows(&self) -> Rows {
        arbitrary::<spec_fn(Self) -> Rows>()(*self)
    }

    /// Whether the database is known never to fail. One that does not say may fail.
    open spec fn reliable(&self) -> bool {
        false
    }

    /// The value of a key, if it has one.
    fn get(&self, cf: Cf, key: &[u8]) -> (r: Result<Option<Vec<u8>>, StorageError>)
        ensures
            self.reliable() ==> r is Ok,
            match r {
                Ok(Some(value)) => self.rows().contains_key((cf, key@)) && value@ == self.rows()[(
                    cf,
                    key@,
                )],
                Ok(None) => !self.rows().contains_key((cf, key@)),
                Err(e) => is_database_failure(e),
            },
    ;

    /// The rows of a walk. A database holds finitely many.
    fn scan(&self, w: &Walk) -> (r: Result<Vec<Row>, StorageError>)
        ensures
            self.reliable() ==> r is Ok,
            self.rows().dom().finite(),
            match r {
                Ok(rows) => walked(self.rows(), w@, views(rows@)),
                Err(e) => is_database_failure(e),
            },
    ;

    /// Makes the changes, all of them or none.
    fn write(&mut self, batch: &StorageWriteBatch) -> (r: Result<(), StorageError>)
        ensures
            old(self).reliable() ==> r is Ok && final(self).reliable(),
            match r {
                Ok(()) => final(self).rows() == apply(old(self).rows(), batch@),
                Err(e) => is_database_failure(e) && (final(self).rows() == old(self).rows()
                    || final(self).rows() == apply(old(self).rows(), batch@)),
            },
    ;
}

} // verus!
