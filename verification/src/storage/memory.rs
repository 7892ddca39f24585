//! A database in memory, for nodes that keep nothing.

use crate::bytes::{
    lemma_lex_irreflexive, lemma_lex_total, lemma_lex_transitive, lex_before, lex_less, same_bytes,
    starts_with,
};
use crate::storage::cf::Cf;
use crate::storage::database::{comes_before, on_walk, reached, views, Database, Row, Walk};
use crate::storage::error::StorageError;
use crate::storage::write_batch::{apply, apply_op, in_range, BatchOp, Op, Rows, StorageWriteBatch};
use vstd::prelude::*;
use vstd::slice::slice_to_vec;

verus! {

/// A row with its column family.
pub struct Entry {
    pub cf: Cf,
    pub key: Vec<u8>,
    pub value: Vec<u8>,
}

/// An entry, as a mathematical value: its column family, its key, its value.
pub type EntryModel = (Cf, Seq<u8>, Seq<u8>);

pub open spec fn entry_models(entries: Seq<Entry>) -> Seq<EntryModel> {
    entries.map_values(|e: Entry| (e.cf, e.key@, e.value@))
}

/// Entries in the order of their keys, none of them twice in one column family.
pub open spec fn in_order(entries: Seq<EntryModel>) -> bool {
    &&& forall|i: int, j: int|
        0 <= i < j < entries.len() ==> !lex_less((#[trigger] entries[j]).1, (#[trigger] entries[i]).1)
    &&& forall|i: int, j: int|
        0 <= i < j < entries.len() && (#[trigger] entries[i]).0 == (#[trigger] entries[j]).0
            ==> entries[i].1 != entries[j].1
}

/// An entry for the key.
pub open spec fn holds(entries: Seq<EntryModel>, k: (Cf, Seq<u8>)) -> bool {
    exists|i: int| 0 <= i < entries.len() && (#[trigger] entries[i]).0 == k.0 && entries[i].1 == k.1
}

/// The place of the entry for the key.
pub open spec fn place(entries: Seq<EntryModel>, k: (Cf, Seq<u8>)) -> int {
    choose|i: int| 0 <= i < entries.len() && (#[trigger] entries[i]).0 == k.0 && entries[i].1 == k.1
}

/// What the entries hold.
pub open spec fn entry_rows(entries: Seq<EntryModel>) -> Rows {
    Map::new(|k: (Cf, Seq<u8>)| holds(entries, k), |k: (Cf, Seq<u8>)| entries[place(entries, k)].2)
}

proof fn lemma_entry(entries: Seq<EntryModel>, i: int)
    requires
        in_order(entries),
        0 <= i < entries.len(),
    ensures
        entry_rows(entries).contains_key((entries[i].0, entries[i].1)),
        entry_rows(entries)[(entries[i].0, entries[i].1)] == entries[i].2,
{
    let k = (entries[i].0, entries[i].1);
    assert(holds(entries, k));
    let j = place(entries, k);
    assert(entries[j].0 == k.0 && entries[j].1 == k.1);
    if i < j {
        assert(entries[i].0 == entries[j].0);
    } else if j < i {
        assert(entries[j].0 == entries[i].0);
    }
}

proof fn lemma_entry_rows_finite(entries: Seq<EntryModel>)
    ensures
        entry_rows(entries).dom().finite(),
{
    let list = entries.map_values(|e: EntryModel| (e.0, e.1));
    let keys = list.to_set();
    vstd::seq_lib::seq_to_set_is_finite(list);
    assert forall|k: (Cf, Seq<u8>)| entry_rows(entries).dom().contains(k) implies keys.contains(
        k,
    ) by {
        assert(list[place(entries, k)] == k);
    }
    vstd::set_lib::lemma_len_subset(entry_rows(entries).dom(), keys);
}

/// A database in memory.
pub struct MemoryDatabase {
    entries: Vec<Entry>,
}

impl MemoryDatabase {
    pub closed spec fn model(&self) -> Seq<EntryModel> {
        entry_models(self.entries@)
    }

    #[verifier::type_invariant]
    spec fn sorted(self) -> bool {
        in_order(entry_models(self.entries@))
    }

    /// An empty database.
    pub fn new() -> (r: Self)
        ensures
            r.rows() == Map::<(Cf, Seq<u8>), Seq<u8>>::empty(),
    {
        let r = MemoryDatabase { entries: Vec::new() };
        assert(r.rows() =~= Map::<(Cf, Seq<u8>), Seq<u8>>::empty());
        r
    }
}

/// Where the entry for a key stands, or where it would.
fn find(entries: &Vec<Entry>, cf: Cf, key: &[u8]) -> (r: (bool, usize))
    requires
        in_order(entry_models(entries@)),
    ensures
        ({
            let m = entry_models(entries@);
            let (found, at) = r;
            &&& found ==> at < m.len() && m[at as int].0 == cf && m[at as int].1 == key@
            &&& !found ==> at <= m.len() && !holds(m, (cf, key@))
            &&& !found ==> forall|i: int| 0 <= i < at ==> !lex_less(key@, (#[trigger] m[i]).1)
            &&& !found ==> forall|i: int| at <= i < m.len() ==> lex_less(key@, (#[trigger] m[i]).1)
        }),
{
    let n: usize = entries.len();
    let ghost m = entry_models(entries@);
    let mut i: usize = 0;
    while i < n
        invariant
            i <= n == entries@.len(),
            m == entry_models(entries@),
            in_order(m),
            forall|j: int| 0 <= j < i ==> !lex_less(key@, (#[trigger] m[j]).1),
            forall|j: int| 0 <= j < i ==> !((#[trigger] m[j]).0 == cf && m[j].1 == key@),
        decreases n - i,
    {
        assert(m[i as int] == (entries[i as int].cf, entries[i as int].key@, entries[i as int].value@));
        if entries[i].cf == cf && same_bytes(entries[i].key.as_slice(), key) {
            return (true, i);
        }
        if lex_before(key, entries[i].key.as_slice()) {
            proof {
                lemma_lex_irreflexive(key@);
                assert forall|j: int| i <= j < m.len() implies lex_less(key@, (#[trigger] m[j]).1) by {
                    if j > i {
                        assert(!lex_less(m[j].1, m[i as int].1));
                        lemma_lex_total(m[i as int].1, m[j].1);
                        if m[i as int].1 != m[j].1 {
                            lemma_lex_transitive(key@, m[i as int].1, m[j].1);
                        }
                    }
                }
            }
            return (false, i);
        }
        i = i + 1;
    }
    (false, n)
}

/// Gives a key a value.
fn put_entry(entries: &mut Vec<Entry>, cf: Cf, key: &[u8], value: &[u8])
    requires
        in_order(entry_models(old(entries)@)),
    ensures
        in_order(entry_models(final(entries)@)),
        entry_rows(entry_models(final(entries)@)) == entry_rows(entry_models(old(entries)@)).insert(
            (cf, key@),
            value@,
        ),
{
    let (found, at) = find(entries, cf, key);
    let ghost before = entry_models(entries@);
    let entry = Entry { cf, key: slice_to_vec(key), value: slice_to_vec(value) };
    let ghost k = (cf, key@);
    let ghost model: EntryModel = (cf, key@, value@);
    if found {
        entries.set(at, entry);
        proof {
            let after = entry_models(entries@);
            assert(after =~= before.update(at as int, model));
            assert forall|i: int, j: int| 0 <= i < j < after.len() implies !lex_less(
                (#[trigger] after[j]).1,
                (#[trigger] after[i]).1,
            ) by {
                assert(after[i].1 == before[i].1 && after[j].1 == before[j].1);
            }
            assert forall|i: int, j: int|
                0 <= i < j < after.len() && (#[trigger] after[i]).0 == (#[trigger] after[j]).0 implies after[i].1
                != after[j].1 by {
                assert(before[i].0 == before[j].0);
            }
            lemma_same_places(before, after, k, value@, at as int, true);
        }
    } else {
        entries.insert(at, entry);
        proof {
            let after = entry_models(entries@);
            assert(after =~= before.insert(at as int, model));
            assert forall|i: int, j: int| 0 <= i < j < after.len() implies !lex_less(
                (#[trigger] after[j]).1,
                (#[trigger] after[i]).1,
            ) by {
                if j == at {
                    assert(after[i] == before[i]);
                } else if i == at {
                    assert(after[j] == before[j - 1]);
                    if lex_less(after[j].1, key@) {
                        lemma_lex_transitive(key@, before[j - 1].1, key@);
                        lemma_lex_irreflexive(key@);
                    }
                } else {
                    let x = if i < at { i } else { i - 1 };
                    let y = if j < at { j } else { j - 1 };
                    assert(after[i] == before[x] && after[j] == before[y]);
                }
            }
            assert forall|i: int, j: int|
                0 <= i < j < after.len() && (#[trigger] after[i]).0 == (#[trigger] after[j]).0 implies after[i].1
                != after[j].1 by {
                if j == at {
                    assert(after[i] == before[i]);
                    assert(!holds(before, k));
                } else if i == at {
                    assert(after[j] == before[j - 1]);
                    assert(!holds(before, k));
                } else {
                    let x = if i < at { i } else { i - 1 };
                    let y = if j < at { j } else { j - 1 };
                    assert(after[i] == before[x] && after[j] == before[y]);
                }
            }
            lemma_same_places(before, after, k, value@, at as int, false);
        }
    }
}

/// What entries hold once one of them is put in, in its own place or in a new one.
proof fn lemma_same_places(
    before: Seq<EntryModel>,
    after: Seq<EntryModel>,
    k: (Cf, Seq<u8>),
    value: Seq<u8>,
    at: int,
    found: bool,
)
    requires
        in_order(before),
        in_order(after),
        found ==> 0 <= at < before.len() && before[at].0 == k.0 && before[at].1 == k.1,
        0 <= at <= before.len(),
        after == if found {
            before.update(at, (k.0, k.1, value))
        } else {
            before.insert(at, (k.0, k.1, value))
        },
    ensures
        entry_rows(after) == entry_rows(before).insert(k, value),
{
    let a = entry_rows(after);
    let b = entry_rows(before).insert(k, value);
    lemma_entry(after, at);
    assert forall|x: (Cf, Seq<u8>)| a.contains_key(x) == b.contains_key(x) by {
        if holds(before, x) {
            let i = place(before, x);
            lemma_entry(before, i);
            let j = if found || i < at { i } else { i + 1 };
            lemma_entry(after, j);
        }
        if holds(after, x) && x != k {
            let i = place(after, x);
            assert(i != at);
            let j = if found || i < at { i } else { i - 1 };
            assert(after[i] == before[j]);
            lemma_entry(before, j);
        }
    }
    assert forall|x: (Cf, Seq<u8>)| b.contains_key(x) implies #[trigger] a[x] == b[x] by {
        if x != k {
            let i = place(before, x);
            assert(holds(before, x));
            lemma_entry(before, i);
            let j = if found || i < at { i } else { i + 1 };
            assert(after[j] == before[i]);
            lemma_entry(after, j);
        }
    }
    assert(a =~= b);
}

/// Whether an entry is one of those to be removed.
pub open spec fn removed(op: Op, e: EntryModel) -> bool {
    match op {
        Op::Put(_, _, _) => false,
        Op::Delete(cf, key) => e.0 == cf && e.1 == key,
        Op::DeleteRange(cf, start, end) => e.0 == cf && in_range(e.1, start, end),
    }
}

/// Removes a key, or a range of keys.
fn remove_entries(entries: &mut Vec<Entry>, op: &BatchOp)
    requires
        in_order(entry_models(old(entries)@)),
        !(op is Put),
    ensures
        in_order(entry_models(final(entries)@)),
        entry_rows(entry_models(final(entries)@)) == apply_op(
            entry_rows(entry_models(old(entries)@)),
            op@,
        ),
{
    let ghost before = entry_models(entries@);
    let mut kept: Vec<Entry> = Vec::new();
    let mut all: Vec<Entry> = Vec::new();
    std::mem::swap(&mut all, entries);
    let ghost mut places: Seq<int> = Seq::empty();
    for entry in it: all
        invariant
            entry_models(it.seq()) == before,
            in_order(before),
            !(op is Put),
            kept@.len() == places.len(),
            forall|i: int| 0 <= i < places.len() ==> 0 <= #[trigger] places[i] < it.index(),
            forall|i: int|
                0 <= i < places.len() ==> #[trigger] entry_models(kept@)[i] == before[places[i]],
            forall|i: int| 0 <= i < places.len() ==> !removed(op@, before[#[trigger] places[i]]),
            forall|i: int, j: int| 0 <= i < j < places.len() ==> places[i] < places[j],
            forall|j: int|
                0 <= j < it.index() && !removed(op@, #[trigger] before[j]) ==> places.contains(j),
    {
        let ghost at = it.index() as int;
        assert(before[at] == (entry.cf, entry.key@, entry.value@)) by {
            assert(entry_models(it.seq())[at] == before[at]);
        }
        let gone = match op {
            BatchOp::Put { cf, key, value } => false,
            BatchOp::Delete { cf, key } => entry.cf == *cf && same_bytes(
                entry.key.as_slice(),
                key.as_slice(),
            ),
            BatchOp::DeleteRange { cf, start, end } => entry.cf == *cf && !lex_before(
                entry.key.as_slice(),
                start.as_slice(),
            ) && lex_before(entry.key.as_slice(), end.as_slice()),
        };
        if !gone {
            let ghost was = places;
            let ghost seen = kept@;
            kept.push(entry);
            proof {
                places = places.push(at);
                assert forall|i: int| 0 <= i < places.len() implies #[trigger] entry_models(
                    kept@,
                )[i] == before[places[i]] by {
                    if i < was.len() {
                        assert(entry_models(kept@)[i] == entry_models(seen)[i]);
                    }
                }
                assert forall|j: int|
                    0 <= j <= at && !removed(op@, #[trigger] before[j]) implies places.contains(j) by {
                    if j == at {
                        assert(places[was.len() as int] == at);
                    } else {
                        assert(was.contains(j));
                        let i = was.index_of(j);
                        assert(places[i] == j);
                    }
                }
            }
        }
    }
    proof {
        let after = entry_models(kept@);
        assert forall|i: int, j: int| 0 <= i < j < after.len() implies !lex_less(
            (#[trigger] after[j]).1,
            (#[trigger] after[i]).1,
        ) by {
            assert(after[i] == before[places[i]] && after[j] == before[places[j]]);
            assert(places[i] < places[j]);
        }
        assert forall|i: int, j: int|
            0 <= i < j < after.len() && (#[trigger] after[i]).0 == (#[trigger] after[j]).0 implies after[i].1
            != after[j].1 by {
            assert(after[i] == before[places[i]] && after[j] == before[places[j]]);
            assert(places[i] < places[j]);
        }
        let a = entry_rows(after);
        let b = apply_op(entry_rows(before), op@);
        assert forall|x: (Cf, Seq<u8>)| a.contains_key(x) == b.contains_key(x) by {
            if holds(after, x) {
                let i = place(after, x);
                assert(after[i] == before[places[i]]);
                lemma_entry(before, places[i]);
                assert(!removed(op@, before[places[i]]));
            }
            if b.contains_key(x) {
                let j = place(before, x);
                assert(holds(before, x));
                assert(!removed(op@, before[j]));
                let i = places.index_of(j);
                assert(after[i] == before[places[i]]);
                lemma_entry(after, i);
            }
        }
        assert forall|x: (Cf, Seq<u8>)| b.contains_key(x) implies #[trigger] a[x] == b[x] by {
            let j = place(before, x);
            assert(holds(before, x));
            assert(!removed(op@, before[j]));
            let i = places.index_of(j);
            assert(after[i] == before[places[i]]);
            lemma_entry(after, i);
        }
        assert(a =~= b);
    }
    *entries = kept;
}

/// The entry that a walk through the entries comes to at its `i`th step.
pub open spec fn step(entries: Seq<EntryModel>, reverse: bool, i: int) -> EntryModel {
    if reverse {
        entries[entries.len() - 1 - i]
    } else {
        entries[i]
    }
}

proof fn lemma_step_order(entries: Seq<EntryModel>, reverse: bool, i: int, j: int)
    requires
        in_order(entries),
        0 <= i < j < entries.len(),
        step(entries, reverse, i).0 == step(entries, reverse, j).0,
    ensures
        comes_before(reverse, step(entries, reverse, i).1, step(entries, reverse, j).1),
{
    let x = step(entries, reverse, i);
    let y = step(entries, reverse, j);
    lemma_lex_total(x.1, y.1);
    let a = if reverse { entries.len() - 1 - j } else { i };
    let b = if reverse { entries.len() - 1 - i } else { j };
    assert(0 <= a < b < entries.len());
    assert(entries[a].0 == entries[b].0);
    assert(entries[a].1 != entries[b].1);
    assert(!lex_less(entries[b].1, entries[a].1));
}

impl Database for MemoryDatabase {
    closed spec fn rows(&self) -> Rows {
        entry_rows(entry_models(self.entries@))
    }

    open spec fn reliable(&self) -> bool {
        true
    }

    fn get(&self, cf: Cf, key: &[u8]) -> (r: Result<Option<Vec<u8>>, StorageError>) {
        proof {
            use_type_invariant(self);
        }
        let (found, at) = find(&self.entries, cf, key);
        if found {
            proof {
                lemma_entry(entry_models(self.entries@), at as int);
            }
            Ok(Some(slice_to_vec(self.entries[at].value.as_slice())))
        } else {
            Ok(None)
        }
    }

    fn scan(&self, w: &Walk) -> (r: Result<Vec<Row>, StorageError>) {
        proof {
            use_type_invariant(self);
            lemma_entry_rows_finite(entry_models(self.entries@));
        }
        let ghost m = entry_models(self.entries@);
        let n: usize = self.entries.len();
        let mut out: Vec<Row> = Vec::new();
        let mut i: usize = 0;
        let ghost mut places: Seq<int> = Seq::empty();
        while i < n && out.len() < w.limit
            invariant
                i <= n == self.entries@.len(),
                m == entry_models(self.entries@),
                in_order(m),
                out@.len() <= w.limit,
                out@.len() == places.len(),
                forall|j: int| 0 <= j < places.len() ==> 0 <= #[trigger] places[j] < i,
                forall|j: int|
                    0 <= j < places.len() ==> {
                        let e = step(m, w.reverse, #[trigger] places[j]);
                        e.0 == w.cf && on_walk(w@, e.1) && views(out@)[j] == (e.1, e.2)
                    },
                forall|j: int, k: int| 0 <= j < k < places.len() ==> places[j] < places[k],
                forall|j: int|
                    0 <= j < i && (#[trigger] step(m, w.reverse, j)).0 == w.cf && on_walk(
                        w@,
                        step(m, w.reverse, j).1,
                    ) ==> places.contains(j),
            decreases n - i,
        {
            let at: usize = if w.reverse {
                n - 1 - i
            } else {
                i
            };
            let entry = &self.entries[at];
            assert(step(m, w.reverse, i as int) == (entry.cf, entry.key@, entry.value@));
            let from_here = match &w.start {
                Some(start) => if w.reverse {
                    !lex_before(start.as_slice(), entry.key.as_slice())
                } else {
                    !lex_before(entry.key.as_slice(), start.as_slice())
                },
                None => true,
            };
            let right_length = match w.key_len {
                Some(n) => entry.key.len() == n,
                None => true,
            };
            if entry.cf == w.cf && from_here && right_length && starts_with(
                entry.key.as_slice(),
                w.prefix.as_slice(),
            ) {
                let ghost was = places;
                let ghost seen = out@;
                out.push(
                    Row {
                        key: slice_to_vec(entry.key.as_slice()),
                        value: slice_to_vec(entry.value.as_slice()),
                    },
                );
                proof {
                    places = places.push(i as int);
                    assert forall|j: int| 0 <= j < places.len() implies ({
                        let e = step(m, w.reverse, #[trigger] places[j]);
                        e.0 == w.cf && on_walk(w@, e.1) && views(out@)[j] == (e.1, e.2)
                    }) by {
                        if j < was.len() {
                            assert(places[j] == was[j]);
                            assert(views(out@)[j] == views(seen)[j]);
                        }
                    }
                    assert forall|j: int|
                        0 <= j <= i && (#[trigger] step(m, w.reverse, j)).0 == w.cf && on_walk(
                            w@,
                            step(m, w.reverse, j).1,
                        ) implies places.contains(j) by {
                        if j == i {
                            assert(places[was.len() as int] == j);
                        } else {
                            assert(was.contains(j));
                            assert(places[was.index_of(j)] == j);
                        }
                    }
                }
            }
            i = i + 1;
        }
        proof {
            let rows = entry_rows(m);
            let found = views(out@);
            assert forall|j: int| 0 <= j < found.len() implies ({
                let row = #[trigger] found[j];
                rows.contains_key((w.cf, row.0)) && rows[(w.cf, row.0)] == row.1 && on_walk(
                    w@,
                    row.0,
                )
            }) by {
                let p = places[j];
                lemma_entry(
                    m,
                    if w.reverse {
                        m.len() - 1 - p
                    } else {
                        p
                    },
                );
            }
            assert forall|j: int, k: int| 0 <= j < k < found.len() implies comes_before(
                w.reverse,
                (#[trigger] found[j]).0,
                (#[trigger] found[k]).0,
            ) by {
                assert(places[j] < places[k]);
                lemma_step_order(m, w.reverse, places[j], places[k]);
            }
            assert forall|k: Seq<u8>| #[trigger]
                rows.contains_key((w.cf, k)) && on_walk(w@, k) implies reached(w@, found, k) by {
                assert(holds(m, (w.cf, k)));
                let p = place(m, (w.cf, k));
                let j = if w.reverse {
                    m.len() - 1 - p
                } else {
                    p
                };
                assert(step(m, w.reverse, j) == m[p]);
                if j < i {
                    assert(places.contains(j));
                    let x = places.index_of(j);
                    assert(places[x] == j);
                    assert(found[x].0 == k);
                } else {
                    assert(out@.len() == w.limit);
                    if found.len() > 0 {
                        let last = places[found.len() - 1];
                        assert(step(m, w.reverse, last).0 == w.cf);
                        assert(found[found.len() - 1].0 == step(m, w.reverse, last).1);
                        lemma_step_order(m, w.reverse, last, j);
                    }
                }
            }
        }
        Ok(out)
    }

    fn write(&mut self, batch: &StorageWriteBatch) -> (r: Result<(), StorageError>) {
        proof {
            use_type_invariant(&*self);
        }
        let ghost start = entry_rows(entry_models(self.entries@));
        let mut entries: Vec<Entry> = Vec::new();
        std::mem::swap(&mut entries, &mut self.entries);
        let n: usize = batch.ops.len();
        let mut i: usize = 0;
        assert(batch@.take(0) =~= Seq::<Op>::empty());
        while i < n
            invariant
                i <= n == batch.ops@.len(),
                in_order(entry_models(entries@)),
                entry_rows(entry_models(entries@)) == apply(start, batch@.take(i as int)),
            decreases n - i,
        {
            assert(batch@.take(i + 1).drop_last() =~= batch@.take(i as int));
            assert(batch@.take(i + 1).last() == batch.ops[i as int]@);
            match &batch.ops[i] {
                BatchOp::Put { cf, key, value } => {
                    put_entry(&mut entries, *cf, key.as_slice(), value.as_slice());
                },
                _ => {
                    remove_entries(&mut entries, &batch.ops[i]);
                },
            }
            i = i + 1;
        }
        assert(batch@.take(n as int) =~= batch@);
        self.entries = entries;
        Ok(())
    }
}

} // verus!
