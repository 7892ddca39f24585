//! Concurrent tables.
//!
//! The tables are `dashmap::DashMap`s. A function that changes one takes it by `&mut`, so
//! that what a table holds is known from one call to the next; callers that share a table
//! between threads put a lock around its owner.

use vstd::prelude::*;

verus! {

/// `dashmap::DashMap`, of which Verus sees nothing but what the functions here say.
#[verifier::external_type_specification]
#[verifier::external_body]
#[verifier::reject_recursive_types(K)]
#[verifier::reject_recursive_types(V)]
#[verifier::reject_recursive_types(S)]
pub struct ExDashMap<K, V, S>(dashmap::DashMap<K, V, S>);

/// A table and what it holds.
pub trait Table<K, V> {
    spec fn rows(&self) -> Map<K, V>;
}

/// `DashMap::insert`: the key now has the value; what it had before, if anything, comes
/// back.
#[verifier::external_body]
pub(crate) fn table_insert<K: Eq + std::hash::Hash, V>(
    table: &mut dashmap::DashMap<K, V>,
    key: K,
    value: V,
) -> (r: Option<V>) where dashmap::DashMap<K, V>: Table<K, V>
    ensures
        final(table).rows() == old(table).rows().insert(key, value),
        r == if old(table).rows().contains_key(key) {
            Some(old(table).rows()[key])
        } else {
            None
        },
{
    table.insert(key, value)
}

/// `DashMap::remove`: the key is gone; its value, if it had one, comes back.
#[verifier::external_body]
pub(crate) fn table_remove<K: Eq + std::hash::Hash, V>(
    table: &mut dashmap::DashMap<K, V>,
    key: &K,
) -> (r: Option<V>) where dashmap::DashMap<K, V>: Table<K, V>
    ensures
        final(table).rows() == old(table).rows().remove(*key),
        r == if old(table).rows().contains_key(*key) {
            Some(old(table).rows()[*key])
        } else {
            None
        },
{
    table.remove(key).map(|row| row.1)
}

/// `DashMap::contains_key`.
#[verifier::external_body]
pub(crate) fn table_contains<K: Eq + std::hash::Hash, V>(
    table: &dashmap::DashMap<K, V>,
    key: &K,
) -> (r: bool) where dashmap::DashMap<K, V>: Table<K, V>
    ensures
        r == table.rows().contains_key(*key),
{
    table.contains_key(key)
}

/// `DashMap::get`, read through `f`: the value of the key, if it has one, is handed to
/// `f`, and what `f` makes of it comes back.
#[verifier::external_body]
pub(crate) fn table_get<K: Eq + std::hash::Hash, V, R, F: FnOnce(&V) -> R>(
    table: &dashmap::DashMap<K, V>,
    key: &K,
    f: F,
) -> (r: Option<R>) where dashmap::DashMap<K, V>: Table<K, V>
    requires
        table.rows().contains_key(*key) ==> f.requires((&table.rows()[*key],)),
    ensures
        match r {
            Some(x) => table.rows().contains_key(*key) && f.ensures((&table.rows()[*key],), x),
            None => !table.rows().contains_key(*key),
        },
{
    table.get(key).map(|row| f(row.value()))
}

/// `DashMap::iter`, taking the keys: every key once, in no particular order.
#[verifier::external_body]
pub(crate) fn table_keys<K: Eq + std::hash::Hash + Copy, V>(table: &dashmap::DashMap<K, V>) -> (r:
    Vec<K>) where dashmap::DashMap<K, V>: Table<K, V>
    ensures
        r@.no_duplicates(),
        r@.to_set() == table.rows().dom(),
{
    table.iter().map(|row| *row.key()).collect()
}

/// `DashMap::len`: how many keys there are.
#[verifier::external_body]
pub(crate) fn table_len<K: Eq + std::hash::Hash, V>(table: &dashmap::DashMap<K, V>) -> (r:
    usize) where dashmap::DashMap<K, V>: Table<K, V>
    ensures
        r == table.rows().dom().len(),
{
    table.len()
}

/// A set of slots.
pub type SlotSet = dashmap::DashMap<u64, ()>;

/// The slots in the set.
pub uninterp spec fn slot_set_rows(set: SlotSet) -> Map<u64, ()>;

impl Table<u64, ()> for SlotSet {
    open spec fn rows(&self) -> Map<u64, ()> {
        slot_set_rows(*self)
    }
}

/// `DashMap::new`: an empty set.
#[verifier::external_body]
pub(crate) fn new_slot_set() -> (set: SlotSet)
    ensures
        slot_set_rows(set).dom() == Set::<u64>::empty(),
{
    dashmap::DashMap::new()
}

} // verus!
