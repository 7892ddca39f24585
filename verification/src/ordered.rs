//! Ordered maps keyed by numbers.

use std::collections::BTreeMap;
use vstd::prelude::*;
use vstd::std_specs::cmp::OrdSpec;
use vstd::std_specs::iter::IteratorSpec;

verus! {

/// Numbers are ordered as a map's keys have to be.
pub proof fn lemma_u32_keys()
    ensures
        vstd::laws_cmp::obeys_cmp::<u32>(),
        vstd::std_specs::btree::key_obeys_cmp_spec::<u32>(),
{
    broadcast use vstd::laws_cmp::group_laws_cmp;
    broadcast use vstd::std_specs::btree::group_btree_axioms;

}

/// Each number is less than every one behind it.
pub open spec fn ascending(s: Seq<u32>) -> bool {
    forall|i: int, j: int| 0 <= i < j < s.len() ==> s[i] < s[j]
}

proof fn lemma_increasing(s: Seq<u32>)
    requires
        vstd::std_specs::btree::increasing_seq(s),
    ensures
        ascending(s),
{
    broadcast use vstd::laws_cmp::group_laws_cmp;
    broadcast use vstd::std_specs::btree::group_btree_axioms;

    assert forall|i: int, j: int| 0 <= i < j < s.len() implies s[i] < s[j] by {
        assert(s[i].cmp_spec(&s[j]) is Less);
    }
}

/// The keys of a map in ascending order.
pub fn sorted_keys<V>(map: &BTreeMap<u32, V>) -> (r: Vec<u32>)
    ensures
        ascending(r@),
        r@.to_set() == map@.dom(),
        r@.len() == map@.dom().len(),
{
    broadcast use vstd::std_specs::btree::group_btree_axioms;

    proof {
        lemma_u32_keys();
    }
    let mut keys: Vec<u32> = Vec::new();
    let iter = map.iter();
    let ghost listed = iter.remaining();
    let ghost names = listed.map_values(|kv: (&u32, &V)| *kv.0);
    for row in it: iter
        invariant
            it.seq() == listed,
            names == listed.map_values(|kv: (&u32, &V)| *kv.0),
            keys@ == names.take(it.index() as int),
    {
        keys.push(*row.0);
        assert(names.take(it.index() + 1) =~= names.take(it.index() as int).push(*row.0));
    }
    proof {
        assert(names.take(names.len() as int) =~= names);
        assert(keys@ == names);
        lemma_increasing(names);
        assert(keys@.to_set() =~= map@.dom()) by {
            assert forall|k: u32| keys@.to_set().contains(k) == map@.dom().contains(k) by {
                if map@.contains_key(k) {
                    assert(listed.contains((&k, &map@[k])));
                    let i = choose|i: int| 0 <= i < listed.len() && listed[i] == (&k, &map@[k]);
                    assert(names[i] == k);
                }
                if keys@.contains(k) {
                    let i = choose|i: int| 0 <= i < keys@.len() && keys@[i] == k;
                    assert(map@.contains_key(*listed[i].0));
                }
            }
        }
    }
    keys
}

/// Removes the given keys. Returns how many of them were there.
pub fn remove_all<V>(map: &mut BTreeMap<u32, V>, keys: &[u32]) -> (removed: usize)
    ensures
        final(map)@ == old(map)@.remove_keys(keys@.to_set()),
        removed == old(map)@.dom().len() - final(map)@.dom().len(),
{
    broadcast use vstd::std_specs::btree::group_btree_axioms;

    let n: usize = keys.len();
    let ghost start = map@;
    let mut removed: usize = 0;
    let mut i: usize = 0;
    assert(start.remove_keys(keys@.take(0).to_set()) =~= start);
    while i < n
        invariant
            i <= n == keys@.len(),
            start == old(map)@,
            start.dom().finite(),
            map@ == start.remove_keys(keys@.take(i as int).to_set()),
            map@.dom().finite(),
            removed <= i,
            removed == start.dom().len() - map@.dom().len(),
        decreases n - i,
    {
        let key: u32 = keys[i];
        let ghost here = map@;
        proof {
            lemma_u32_keys();
            let seen = keys@.take(i as int);
            assert(keys@.take(i + 1) =~= seen.push(key));
            lemma_push_to_set(seen, key);
            assert(start.remove_keys(seen.to_set().insert(key)) =~= here.remove(key));
        }
        match map.remove(&key) {
            Some(_) => {
                removed = removed + 1;
            },
            None => {
                assert(here.remove(key) =~= here);
            },
        }
        i = i + 1;
    }
    assert(keys@.take(n as int) =~= keys@);
    removed
}

proof fn lemma_push_to_set(s: Seq<u32>, k: u32)
    ensures
        s.push(k).to_set() == s.to_set().insert(k),
{
    assert forall|x: u32| s.push(k).to_set().contains(x) == s.to_set().insert(k).contains(x) by {
        if s.contains(x) {
            let j = choose|j: int| 0 <= j < s.len() && s[j] == x;
            assert(s.push(k)[j] == x);
        }
        if x == k {
            assert(s.push(k)[s.len() as int] == x);
        }
    }
    assert(s.push(k).to_set() =~= s.to_set().insert(k));
}

} // verus!
