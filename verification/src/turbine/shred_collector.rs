//! Gathering the shreds of slots until blocks can be put together.

use crate::bytes::lemma_le_bytes_len;
use crate::codec::Codec;
use crate::concurrent::{
    new_slot_set, table_contains, table_get, table_insert, table_keys, table_remove, SlotSet, Table,
};
use crate::digest::Digest;
use crate::ledger::Block;
use crate::merkle::MerkleProof;
use crate::ordered::{ascending, lemma_u32_keys, remove_all, sorted_keys};
use crate::storage::shred::DataShred;
use crate::turbine::deshredder::{
    block_of, deshred_inverts_shred, in_place, joined, lemma_block_of, shred_models, BlockModel,
    Deshredder,
};
use crate::turbine::merkle_shred::{
    checks_all, code_verdict, data_verdict, has_last_flag, HeaderModel, MerkleCodeShred,
    MerkleDataShred, ShredBatchHeader, LAST_SHRED_FLAG,
};
use crate::turbine::shredder::{chunk_count, data_models, data_shred_model};
use std::collections::BTreeMap;
use vstd::prelude::*;

verus! {

/// What a data shred with its proof stands for.
pub type DataModel = <MerkleDataShred as Codec>::M;

/// What a code shred with its proof stands for.
pub type CodeModel = <MerkleCodeShred as Codec>::M;

/// What has arrived of a slot.
pub struct SlotShreds {
    /// Buffered data shreds with their Merkle proofs, keyed by shred index. The proofs
    /// are kept for retroactive verification when the header arrives later.
    pub data_shreds: BTreeMap<u32, MerkleDataShred>,
    /// Buffered code shreds, keyed by shred index.
    pub code_shreds: BTreeMap<u32, MerkleCodeShred>,
    pub last_index: Option<u32>,
    /// The slot's batch header: Merkle root and signature.
    pub header: Option<ShredBatchHeader>,
}

/// What has arrived of a slot, as maps.
#[verifier::ext_equal]
pub struct SlotModel {
    pub data: Map<u32, DataModel>,
    pub code: Map<u32, CodeModel>,
    pub last: Option<u32>,
    pub header: Option<HeaderModel>,
}

pub open spec fn data_index(m: DataModel) -> u32 {
    m.0.1.0
}

pub open spec fn data_slot(m: DataModel) -> u64 {
    m.0.0
}

pub open spec fn data_flags(m: DataModel) -> u8 {
    m.0.1.1.1.1
}

pub open spec fn code_index(m: CodeModel) -> u32 {
    m.0.1.0
}

pub open spec fn code_slot(m: CodeModel) -> u64 {
    m.0.0
}

/// A slot of which nothing has arrived.
pub open spec fn empty_slot() -> SlotModel {
    SlotModel { data: Map::empty(), code: Map::empty(), last: None, header: None }
}

/// How many shreds of the slot are buffered, of both kinds.
pub open spec fn buffered(s: SlotModel) -> nat {
    s.data.dom().len() + s.code.dom().len()
}

/// A data shred is taken in: its index is below the limit, the shreds of both kinds leave
/// room for it, and none with its index is there.
pub open spec fn admits_data(s: SlotModel, limit: u32, m: DataModel) -> bool {
    data_index(m) < limit && buffered(s) < limit && !s.data.contains_key(data_index(m))
}

pub open spec fn with_data(s: SlotModel, m: DataModel) -> SlotModel {
    SlotModel {
        data: s.data.insert(data_index(m), m),
        last: if has_last_flag(data_flags(m)) {
            Some(data_index(m))
        } else {
            s.last
        },
        ..s
    }
}

pub open spec fn admits_code(s: SlotModel, limit: u32, m: CodeModel) -> bool {
    code_index(m) < limit && buffered(s) < limit && !s.code.contains_key(code_index(m))
}

pub open spec fn with_code(s: SlotModel, m: CodeModel) -> SlotModel {
    SlotModel { code: s.code.insert(code_index(m), m), ..s }
}

/// Without the data shreds at these indices. If the last one goes, it is forgotten which
/// one is the last.
pub open spec fn without_data(s: SlotModel, bad: Set<u32>) -> SlotModel {
    SlotModel {
        data: s.data.remove_keys(bad),
        last: if s.last is Some && bad.contains(s.last->0) && s.data.contains_key(s.last->0) {
            None
        } else {
            s.last
        },
        ..s
    }
}

pub open spec fn without_code(s: SlotModel, bad: Set<u32>) -> SlotModel {
    SlotModel { code: s.code.remove_keys(bad), ..s }
}

/// The header is there, it is known which shred is the last, and every data shred up to it
/// is there.
pub open spec fn all_arrived(s: SlotModel) -> bool {
    &&& s.header is Some
    &&& s.last is Some
    &&& forall|i: u32| i <= s.last->0 ==> #[trigger] s.data.contains_key(i)
}

/// The data shreds from 0 up to the last index, in order.
pub open spec fn in_order(s: SlotModel) -> Seq<<DataShred as Codec>::M> {
    Seq::new((s.last->0 + 1) as nat, |i: int| s.data[i as u32].0)
}

/// The block, if everything has arrived and the bytes are those of a block.
pub open spec fn assembled(s: SlotModel) -> Option<BlockModel> {
    match assembled_bytes(s) {
        Some(bytes) => block_of(bytes),
        None => None,
    }
}

/// The block's bytes, if everything has arrived and the last shred bears the flag.
pub open spec fn assembled_bytes(s: SlotModel) -> Option<Seq<u8>> {
    if all_arrived(s) && has_last_flag(data_flags(s.data[s.last->0])) {
        Some(joined(in_order(s)))
    } else {
        None
    }
}

/// Once everything has arrived the data shreds are taken out, whatever comes of them.
pub open spec fn after_assembly(s: SlotModel) -> SlotModel {
    if all_arrived(s) {
        SlotModel { data: Map::empty(), ..s }
    } else {
        s
    }
}

proof fn lemma_values_insert<K, A, B>(m: Map<K, A>, f: spec_fn(A) -> B, k: K, a: A)
    ensures
        m.insert(k, a).map_values(f) == m.map_values(f).insert(k, f(a)),
{
    assert(m.insert(k, a).map_values(f) =~= m.map_values(f).insert(k, f(a)));
}

proof fn lemma_values_remove<K, A, B>(m: Map<K, A>, f: spec_fn(A) -> B, k: K)
    ensures
        m.remove(k).map_values(f) == m.map_values(f).remove(k),
{
    assert(m.remove(k).map_values(f) =~= m.map_values(f).remove(k));
}

proof fn lemma_values_dom<K, A, B>(m: Map<K, A>, f: spec_fn(A) -> B)
    ensures
        m.map_values(f).dom() == m.dom(),
{
    assert(m.map_values(f).dom() =~= m.dom());
}

/// The indices up to a given one.
spec fn up_to(l: u32) -> Set<u32> {
    Set::new(|i: u32| i <= l)
}

proof fn lemma_up_to(l: u32)
    ensures
        up_to(l).finite(),
        up_to(l).len() == l + 1,
    decreases l,
{
    if l == 0 {
        assert(up_to(l) =~= Set::<u32>::empty().insert(0));
    } else {
        lemma_up_to((l - 1) as u32);
        assert(up_to(l) =~= up_to((l - 1) as u32).insert(l));
    }
}

/// Of a set that holds all indices up to a given one there are at least as many.
proof fn lemma_holds_up_to(keys: Set<u32>, l: u32)
    requires
        keys.finite(),
        forall|i: u32| i <= l ==> #[trigger] keys.contains(i),
    ensures
        keys.len() >= l + 1,
{
    lemma_up_to(l);
    vstd::set_lib::lemma_len_subset(up_to(l), keys);
}

proof fn lemma_ascending_at_least(keys: Seq<u32>, i: int)
    requires
        ascending(keys),
        0 <= i < keys.len(),
    ensures
        keys[i] >= i,
    decreases i,
{
    if i > 0 {
        lemma_ascending_at_least(keys, i - 1);
    }
}

/// Ascending indices among which are all up to a given one start with these.
proof fn lemma_ascending_full(keys: Seq<u32>, l: u32, i: int)
    requires
        ascending(keys),
        0 <= i <= l,
        forall|k: u32| k <= l ==> #[trigger] keys.to_set().contains(k),
    ensures
        i < keys.len(),
        keys[i] == i as u32,
    decreases i,
{
    let k = i as u32;
    assert(keys.to_set().contains(k));
    let j = choose|j: int| 0 <= j < keys.len() && keys[j] == k;
    lemma_ascending_at_least(keys, j);
    if j < i {
        lemma_ascending_full(keys, l, j);
    }
}

/// The indices below `n` without a data shred, in ascending order.
pub open spec fn missing_below(data: Map<u32, DataModel>, n: nat) -> Seq<u32>
    decreases n,
{
    if n == 0 {
        Seq::empty()
    } else {
        let i = (n - 1) as u32;
        let before = missing_below(data, (n - 1) as nat);
        if data.contains_key(i) {
            before
        } else {
            before.push(i)
        }
    }
}

/// The indices up to the last one that have not arrived, in ascending order; none while
/// the last one is unknown.
pub open spec fn missing_of(s: SlotModel) -> Seq<u32> {
    match s.last {
        Some(l) => missing_below(s.data, (l + 1) as nat),
        None => Seq::empty(),
    }
}

/// What is reported missing is what is missing, each index once, in ascending order.
pub proof fn missing_is_exact(data: Map<u32, DataModel>, n: nat)
    requires
        n <= u32::MAX + 1,
    ensures
        ascending(missing_below(data, n)),
        forall|i: u32| #[trigger]
            missing_below(data, n).contains(i) <==> i < n && !data.contains_key(i),
    decreases n,
{
    if n > 0 {
        let k = (n - 1) as u32;
        let was = missing_below(data, (n - 1) as nat);
        let now = missing_below(data, n);
        missing_is_exact(data, (n - 1) as nat);
        assert forall|j: int| 0 <= j < was.len() implies was[j] < k by {
            assert(was.contains(was[j]));
        }
        assert forall|i: u32| #[trigger] now.contains(i) <==> i < n && !data.contains_key(i) by {
            if !data.contains_key(k) {
                assert(now[was.len() as int] == k);
                if was.contains(i) {
                    let j = choose|j: int| 0 <= j < was.len() && was[j] == i;
                    assert(now[j] == i);
                }
                if now.contains(i) && i != k {
                    let j = choose|j: int| 0 <= j < now.len() && now[j] == i;
                    assert(was[j] == i);
                }
            }
            let _ = was.contains(i);
        }
    }
}

impl SlotShreds {
    pub open spec fn model(&self) -> SlotModel {
        SlotModel {
            data: self.data_shreds@.map_values(|s: MerkleDataShred| s.model()),
            code: self.code_shreds@.map_values(|s: MerkleCodeShred| s.model()),
            last: self.last_index,
            header: match self.header {
                Some(h) => Some(h.model()),
                None => None,
            },
        }
    }

    /// The shreds are those of the slot, each under its own index, and within the limit.
    pub open spec fn well_formed(&self, slot: u64, limit: u32) -> bool {
        &&& self.data_shreds@.dom().finite()
        &&& self.code_shreds@.dom().finite()
        &&& buffered(self.model()) <= limit
        &&& self.last_index is Some ==> self.last_index->0 < limit
        &&& self.header is Some ==> (self.header->0).slot == slot
        &&& forall|k: u32|
            #[trigger] self.data_shreds@.contains_key(k) ==> {
                let s = self.data_shreds@[k];
                &&& k < limit
                &&& s.well_formed()
                &&& s.shred.index == k
                &&& s.shred.slot == slot
            }
        &&& forall|k: u32|
            #[trigger] self.code_shreds@.contains_key(k) ==> {
                let s = self.code_shreds@[k];
                &&& k < limit
                &&& s.well_formed()
                &&& s.shred.index == k
                &&& s.shred.slot == slot
            }
    }

    /// The shreds are those of some slot, within some limit.
    pub open spec fn sound(&self) -> bool {
        exists|slot: u64, limit: u32| self.well_formed(slot, limit)
    }

    /// The root of the slot's header.
    pub fn merkle_root(&self) -> (r: Option<Digest>)
        ensures
            r == match self.header {
                Some(h) => Some(h.merkle_root),
                None => None,
            },
    {
        match &self.header {
            Some(h) => Some(h.merkle_root),
            None => None,
        }
    }

    /// The number of data shreds.
    pub fn data_count(&self) -> (r: usize)
        ensures
            r == self.model().data.dom().len(),
    {
        proof {
            lemma_u32_keys();
            lemma_values_dom(self.data_shreds@, |s: MerkleDataShred| s.model());
        }
        self.data_shreds.len()
    }

    /// The number of code shreds.
    pub fn code_count(&self) -> (r: usize)
        ensures
            r == self.model().code.dom().len(),
    {
        proof {
            lemma_u32_keys();
            lemma_values_dom(self.code_shreds@, |s: MerkleCodeShred| s.model());
        }
        self.code_shreds.len()
    }

    fn new() -> (r: Self)
        ensures
            r.model() == empty_slot(),
            forall|slot: u64, limit: u32| r.well_formed(slot, limit),
    {
        let r = SlotShreds {
            data_shreds: BTreeMap::new(),
            code_shreds: BTreeMap::new(),
            last_index: None,
            header: None,
        };
        proof {
            assert(r.model() =~= empty_slot());
            assert(r.model().data.dom() =~= Set::empty());
            assert(r.model().code.dom() =~= Set::empty());
        }
        r
    }

    /// The shreds of both kinds that are buffered.
    fn total(&self) -> (r: usize)
        requires
            buffered(self.model()) <= u32::MAX,
        ensures
            r == buffered(self.model()),
    {
        proof {
            lemma_u32_keys();
            lemma_values_dom(self.data_shreds@, |s: MerkleDataShred| s.model());
            lemma_values_dom(self.code_shreds@, |s: MerkleCodeShred| s.model());
        }
        self.data_shreds.len() + self.code_shreds.len()
    }

    /// Insert a data shred, enforcing the per-slot **combined** shred budget: data and
    /// code shreds share one limit.
    ///
    /// Returns `false` if the shred was rejected (duplicate, over limit, etc.).
    fn insert(&mut self, shred: &MerkleDataShred, limit: u32) -> (r: bool)
        requires
            old(self).well_formed(shred.shred.slot, limit),
            shred.well_formed(),
        ensures
            final(self).well_formed(shred.shred.slot, limit),
            r == admits_data(old(self).model(), limit, shred.model()),
            final(self).model() == after_arrival(
                old(self).model(),
                limit,
                Arrival::Data(shred.model()),
            ),
    {
        proof {
            lemma_u32_keys();
            lemma_values_dom(self.data_shreds@, |s: MerkleDataShred| s.model());
        }
        let index: u32 = shred.index();
        if index >= limit {
            return false;
        }
        if self.total() >= limit as usize {
            return false;
        }
        if self.data_shreds.contains_key(&index) {
            return false;
        }
        if shred.is_last() {
            self.last_index = Some(index);
        }
        let ghost before = self.data_shreds@;
        let copy = shred.clone();
        self.data_shreds.insert(index, copy);
        proof {
            let f = |s: MerkleDataShred| s.model();
            lemma_values_insert(before, f, index, copy);
            assert(self.model() =~= with_data(old(self).model(), shred.model()));
            lemma_values_dom(before, f);
        }
        true
    }

    /// Insert a code (FEC) shred, enforcing the per-slot **combined** shred budget.
    fn insert_code(&mut self, shred: &MerkleCodeShred, limit: u32) -> (r: bool)
        requires
            old(self).well_formed(shred.shred.slot, limit),
            shred.well_formed(),
        ensures
            final(self).well_formed(shred.shred.slot, limit),
            r == admits_code(old(self).model(), limit, shred.model()),
            final(self).model() == after_arrival(
                old(self).model(),
                limit,
                Arrival::Code(shred.model()),
            ),
    {
        proof {
            lemma_u32_keys();
            lemma_values_dom(self.code_shreds@, |s: MerkleCodeShred| s.model());
        }
        let index: u32 = shred.index();
        if index >= limit {
            return false;
        }
        if self.total() >= limit as usize {
            return false;
        }
        if self.code_shreds.contains_key(&index) {
            return false;
        }
        let ghost before = self.code_shreds@;
        let copy = shred.clone();
        self.code_shreds.insert(index, copy);
        proof {
            let f = |s: MerkleCodeShred| s.model();
            lemma_values_insert(before, f, index, copy);
            assert(self.model() =~= with_code(old(self).model(), shred.model()));
            lemma_values_dom(before, f);
        }
        true
    }

    /// A slot is complete only when the batch header has been received, and all data
    /// shreds up to and including the last one.
    pub fn is_complete(&self) -> (r: bool)
        requires
            self.sound(),
        ensures
            r == all_arrived(self.model()),
    {
        proof {
            lemma_u32_keys();
            lemma_values_dom(self.data_shreds@, |s: MerkleDataShred| s.model());
        }
        if self.header.is_none() {
            return false;
        }
        let last: u32 = match self.last_index {
            Some(last) => last,
            None => {
                return false;
            },
        };
        let ghost keys = self.model().data.dom();
        // Too few shreds can be told without looking at each.
        if self.data_shreds.len() <= last as usize {
            proof {
                if all_arrived(self.model()) {
                    assert forall|i: u32| i <= last implies #[trigger] keys.contains(i) by {
                        assert(self.model().data.contains_key(i));
                    }
                    lemma_holds_up_to(keys, last);
                }
            }
            return false;
        }
        let mut i: u32 = 0;
        while i <= last
            invariant
                i <= last + 1,
                last < u32::MAX,
                keys == self.data_shreds@.dom(),
                forall|k: u32| k < i ==> #[trigger] keys.contains(k),
                self.model().data.dom() == keys,
                self.model().last == Some(last),
            decreases last + 1 - i,
        {
            proof {
                lemma_u32_keys();
            }
            if !self.data_shreds.contains_key(&i) {
                assert(!self.model().data.contains_key(i));
                return false;
            }
            assert(keys.contains(i));
            i = i + 1;
        }
        assert forall|k: u32| k <= last implies #[trigger] self.model().data.contains_key(k) by {
            assert(keys.contains(k));
        }
        true
    }

    /// The indices of the data shreds whose proofs do not verify against the Merkle root.
    fn unproven_data<V: Fn(&MerkleProof, &Vec<u8>, &Digest) -> bool + Copy>(
        &self,
        merkle_root: &Digest,
        check: V,
    ) -> (bad: Vec<u32>)
        requires
            self.sound(),
            checks_all(check),
        ensures
            data_judged(check, self.model().data, *merkle_root, bad@.to_set()),
    {
        let ghost shreds = self.model().data;
        proof {
            lemma_values_dom(self.data_shreds@, |s: MerkleDataShred| s.model());
        }
        let keys: Vec<u32> = sorted_keys(&self.data_shreds);
        let n: usize = keys.len();
        let mut bad: Vec<u32> = Vec::new();
        let mut i: usize = 0;
        while i < n
            invariant
                i <= n == keys@.len(),
                self.sound(),
                checks_all(check),
                shreds == self.model().data,
                ascending(keys@),
                keys@.to_set() == self.data_shreds@.dom(),
                shreds.dom() == self.data_shreds@.dom(),
                forall|b: int| 0 <= b < bad@.len() ==> keys@.take(i as int).contains(#[trigger] bad@[b]),
                forall|j: int|
                    0 <= j < i ==> data_verdict(
                        check,
                        shreds[#[trigger] keys@[j]],
                        *merkle_root,
                        !bad@.contains(keys@[j]),
                    ),
            decreases n - i,
        {
            let key: u32 = keys[i];
            let ghost was = bad@;
            proof {
                lemma_u32_keys();
                assert(keys@.to_set().contains(key));
                assert(self.data_shreds@.contains_key(key));
                if was.contains(key) {
                    let b = choose|b: int| 0 <= b < was.len() && was[b] == key;
                    assert(keys@.take(i as int).contains(was[b]));
                    let j = choose|j: int| 0 <= j < i && keys@.take(i as int)[j] == key;
                    assert(keys@[j] < keys@[i as int]);
                }
            }
            let ok = match self.data_shreds.get(&key) {
                Some(s) => s.verify(merkle_root, check),
                None => true,
            };
            if !ok {
                bad.push(key);
            }
            proof {
                assert(data_verdict(check, shreds[key], *merkle_root, ok));
                assert(keys@.take(i + 1) =~= keys@.take(i as int).push(key));
                assert forall|b: int| 0 <= b < bad@.len() implies keys@.take(i + 1).contains(
                    #[trigger] bad@[b],
                ) by {
                    if b < was.len() {
                        assert(bad@[b] == was[b]);
                        let j = choose|j: int|
                            0 <= j < i && keys@.take(i as int)[j] == was[b];
                        assert(keys@.take(i + 1)[j] == was[b]);
                    } else {
                        assert(keys@.take(i + 1)[i as int] == key);
                    }
                }
                assert forall|j: int| 0 <= j < i + 1 implies bad@.contains(#[trigger] keys@[j])
                    == if j < i {
                    was.contains(keys@[j])
                } else {
                    !ok
                } by {
                    if !ok {
                        assert(bad@ == was.push(key));
                        if j < i {
                            assert(keys@[j] < keys@[i as int]);
                            if was.contains(keys@[j]) {
                                let b = choose|b: int| 0 <= b < was.len() && was[b] == keys@[j];
                                assert(bad@[b] == keys@[j]);
                            }
                        } else {
                            assert(bad@[was.len() as int] == key);
                        }
                    }
                }
            }
            i = i + 1;
        }
        proof {
            assert(keys@.take(n as int) =~= keys@);
            assert forall|x: u32| bad@.to_set().contains(x) implies shreds.dom().contains(x) by {
                let b = choose|b: int| 0 <= b < bad@.len() && bad@[b] == x;
                assert(keys@.take(n as int).contains(bad@[b]));
                assert(keys@.to_set().contains(x));
            }
            assert forall|x: u32| #[trigger] shreds.contains_key(x) implies data_verdict(
                check,
                shreds[x],
                *merkle_root,
                !bad@.to_set().contains(x),
            ) by {
                assert(keys@.to_set().contains(x));
                let j = choose|j: int| 0 <= j < keys@.len() && keys@[j] == x;
                assert(data_verdict(check, shreds[keys@[j]], *merkle_root, !bad@.contains(keys@[j])));
            }
        }
        bad
    }

    /// Retroactively verify all buffered data shreds against the Merkle root, evicting any
    /// shred whose proof does not verify. Returns the indices of the shreds evicted.
    fn verify_buffered_data_shreds<V: Fn(&MerkleProof, &Vec<u8>, &Digest) -> bool + Copy>(
        &mut self,
        merkle_root: &Digest,
        check: V,
        Ghost(slot): Ghost<u64>,
        Ghost(limit): Ghost<u32>,
    ) -> (bad: Vec<u32>)
        requires
            old(self).well_formed(slot, limit),
            checks_all(check),
        ensures
            final(self).well_formed(slot, limit),
            data_judged(check, old(self).model().data, *merkle_root, bad@.to_set()),
            final(self).model() == without_data(old(self).model(), bad@.to_set()),
    {
        let bad: Vec<u32> = self.unproven_data(merkle_root, check);
        self.evict_data(bad.as_slice(), Ghost(slot), Ghost(limit));
        bad
    }

    /// Evict the data shreds at these indices.
    fn evict_data(
        &mut self,
        bad: &[u32],
        Ghost(slot): Ghost<u64>,
        Ghost(limit): Ghost<u32>,
    )
        requires
            old(self).well_formed(slot, limit),
        ensures
            final(self).well_formed(slot, limit),
            final(self).model() == without_data(old(self).model(), bad@.to_set()),
    {
        proof {
            lemma_u32_keys();
        }
        let ghost f = |s: MerkleDataShred| s.model();
        let ghost start = self.data_shreds@;
        let had_last: bool = match self.last_index {
            Some(last) => self.data_shreds.contains_key(&last),
            None => false,
        };
        let _ = remove_all(&mut self.data_shreds, bad);
        // If the last-flagged shred was evicted, it is no longer known which is the last.
        if let Some(last) = self.last_index {
            if had_last && !self.data_shreds.contains_key(&last) {
                self.last_index = None;
            }
        }
        proof {
            lemma_values_dom(start, f);
            lemma_values_dom(self.data_shreds@, f);
            assert(self.data_shreds@.map_values(f) =~= start.map_values(f).remove_keys(
                bad@.to_set(),
            ));
            assert(self.model() =~= without_data(old(self).model(), bad@.to_set()));
        }
    }

    /// The indices of the code shreds whose proofs do not verify against the Merkle root.
    fn unproven_code<V: Fn(&MerkleProof, &Vec<u8>, &Digest) -> bool + Copy>(
        &self,
        merkle_root: &Digest,
        check: V,
    ) -> (bad: Vec<u32>)
        requires
            self.sound(),
            checks_all(check),
        ensures
            code_judged(check, self.model().code, *merkle_root, bad@.to_set()),
    {
        let ghost shreds = self.model().code;
        proof {
            lemma_values_dom(self.code_shreds@, |s: MerkleCodeShred| s.model());
        }
        let keys: Vec<u32> = sorted_keys(&self.code_shreds);
        let n: usize = keys.len();
        let mut bad: Vec<u32> = Vec::new();
        let mut i: usize = 0;
        while i < n
            invariant
                i <= n == keys@.len(),
                self.sound(),
                checks_all(check),
                shreds == self.model().code,
                ascending(keys@),
                keys@.to_set() == self.code_shreds@.dom(),
                shreds.dom() == self.code_shreds@.dom(),
                forall|b: int| 0 <= b < bad@.len() ==> keys@.take(i as int).contains(#[trigger] bad@[b]),
                forall|j: int|
                    0 <= j < i ==> code_verdict(
                        check,
                        shreds[#[trigger] keys@[j]],
                        *merkle_root,
                        !bad@.contains(keys@[j]),
                    ),
            decreases n - i,
        {
            let key: u32 = keys[i];
            let ghost was = bad@;
            proof {
                lemma_u32_keys();
                assert(keys@.to_set().contains(key));
                assert(self.code_shreds@.contains_key(key));
                if was.contains(key) {
                    let b = choose|b: int| 0 <= b < was.len() && was[b] == key;
                    assert(keys@.take(i as int).contains(was[b]));
                    let j = choose|j: int| 0 <= j < i && keys@.take(i as int)[j] == key;
                    assert(keys@[j] < keys@[i as int]);
                }
            }
            let ok = match self.code_shreds.get(&key) {
                Some(s) => s.verify(merkle_root, check),
                None => true,
            };
            if !ok {
                bad.push(key);
            }
            proof {
                assert(code_verdict(check, shreds[key], *merkle_root, ok));
                assert(keys@.take(i + 1) =~= keys@.take(i as int).push(key));
                assert forall|b: int| 0 <= b < bad@.len() implies keys@.take(i + 1).contains(
                    #[trigger] bad@[b],
                ) by {
                    if b < was.len() {
                        assert(bad@[b] == was[b]);
                        let j = choose|j: int|
                            0 <= j < i && keys@.take(i as int)[j] == was[b];
                        assert(keys@.take(i + 1)[j] == was[b]);
                    } else {
                        assert(keys@.take(i + 1)[i as int] == key);
                    }
                }
                assert forall|j: int| 0 <= j < i + 1 implies bad@.contains(#[trigger] keys@[j])
                    == if j < i {
                    was.contains(keys@[j])
                } else {
                    !ok
                } by {
                    if !ok {
                        assert(bad@ == was.push(key));
                        if j < i {
                            assert(keys@[j] < keys@[i as int]);
                            if was.contains(keys@[j]) {
                                let b = choose|b: int| 0 <= b < was.len() && was[b] == keys@[j];
                                assert(bad@[b] == keys@[j]);
                            }
                        } else {
                            assert(bad@[was.len() as int] == key);
                        }
                    }
                }
            }
            i = i + 1;
        }
        proof {
            assert(keys@.take(n as int) =~= keys@);
            assert forall|x: u32| bad@.to_set().contains(x) implies shreds.dom().contains(x) by {
                let b = choose|b: int| 0 <= b < bad@.len() && bad@[b] == x;
                assert(keys@.take(n as int).contains(bad@[b]));
                assert(keys@.to_set().contains(x));
            }
            assert forall|x: u32| #[trigger] shreds.contains_key(x) implies code_verdict(
                check,
                shreds[x],
                *merkle_root,
                !bad@.to_set().contains(x),
            ) by {
                assert(keys@.to_set().contains(x));
                let j = choose|j: int| 0 <= j < keys@.len() && keys@[j] == x;
                assert(code_verdict(check, shreds[keys@[j]], *merkle_root, !bad@.contains(keys@[j])));
            }
        }
        bad
    }

    /// Retroactively verify all buffered code shreds against the Merkle root, evicting any
    /// shred whose proof does not verify. Returns the indices of the shreds evicted.
    fn verify_buffered_code_shreds<V: Fn(&MerkleProof, &Vec<u8>, &Digest) -> bool + Copy>(
        &mut self,
        merkle_root: &Digest,
        check: V,
        Ghost(slot): Ghost<u64>,
        Ghost(limit): Ghost<u32>,
    ) -> (bad: Vec<u32>)
        requires
            old(self).well_formed(slot, limit),
            checks_all(check),
        ensures
            final(self).well_formed(slot, limit),
            code_judged(check, old(self).model().code, *merkle_root, bad@.to_set()),
            final(self).model() == without_code(old(self).model(), bad@.to_set()),
    {
        let bad: Vec<u32> = self.unproven_code(merkle_root, check);
        self.evict_code(bad.as_slice(), Ghost(slot), Ghost(limit));
        bad
    }

    /// Evict the code shreds at these indices.
    fn evict_code(
        &mut self,
        bad: &[u32],
        Ghost(slot): Ghost<u64>,
        Ghost(limit): Ghost<u32>,
    )
        requires
            old(self).well_formed(slot, limit),
        ensures
            final(self).well_formed(slot, limit),
            final(self).model() == without_code(old(self).model(), bad@.to_set()),
    {
        let ghost f = |s: MerkleCodeShred| s.model();
        let ghost start = self.code_shreds@;
        let _ = remove_all(&mut self.code_shreds, bad);
        proof {
            lemma_values_dom(start, f);
            lemma_values_dom(self.code_shreds@, f);
            assert(self.code_shreds@.map_values(f) =~= start.map_values(f).remove_keys(
                bad@.to_set(),
            ));
            assert(self.model() =~= without_code(old(self).model(), bad@.to_set()));
        }
    }

    /// Take out the data shreds, sorted by index.
    fn take_sorted_shreds(&mut self, Ghost(slot): Ghost<u64>, Ghost(limit): Ghost<u32>) -> (r: Vec<
        DataShred,
    >)
        requires
            old(self).well_formed(slot, limit),
        ensures
            final(self).well_formed(slot, limit),
            final(self).model() == (SlotModel { data: Map::empty(), ..old(self).model() }),
            r@.len() == old(self).model().data.dom().len(),
            ascending(Seq::new(r@.len(), |i: int| r@[i].index)),
            Seq::new(r@.len(), |i: int| r@[i].index).to_set() == old(self).model().data.dom(),
            forall|i: int|
                0 <= i < r@.len() ==> (#[trigger] r@[i]).model() == old(self).model().data[r@[i].index].0,
    {
        let ghost f = |s: MerkleDataShred| s.model();
        let ghost start = self.data_shreds@;
        let keys: Vec<u32> = sorted_keys(&self.data_shreds);
        proof {
            lemma_u32_keys();
            lemma_values_dom(start, f);
        }
        let n: usize = keys.len();
        let mut shreds: Vec<DataShred> = Vec::new();
        let mut i: usize = 0;
        while i < n
            invariant
                i <= n == keys@.len(),
                old(self).well_formed(slot, limit),
                start == old(self).data_shreds@,
                ascending(keys@),
                keys@.to_set() == start.dom(),
                self.code_shreds == old(self).code_shreds,
                self.last_index == old(self).last_index,
                self.header == old(self).header,
                forall|k: u32| #[trigger]
                    self.data_shreds@.contains_key(k) == (start.contains_key(k) && forall|j: int|
                        0 <= j < i ==> keys@[j] != k),
                forall|k: u32| #[trigger]
                    self.data_shreds@.contains_key(k) ==> self.data_shreds@[k] == start[k],
                shreds@.len() == i,
                forall|j: int|
                    0 <= j < i ==> (#[trigger] shreds@[j]).index == keys@[j] && shreds@[j]
                        == start[keys@[j]].shred,
            decreases n - i,
        {
            let key: u32 = keys[i];
            proof {
                lemma_u32_keys();
                assert(keys@.to_set().contains(key));
                assert(start.contains_key(key));
                assert(self.data_shreds@.contains_key(key));
            }
            match self.data_shreds.remove(&key) {
                Some(m) => {
                    shreds.push(m.shred);
                },
                None => {},
            }
            i = i + 1;
        }
        proof {
            let indices = Seq::new(shreds@.len(), |j: int| shreds@[j].index);
            assert(indices =~= keys@);
            assert(self.data_shreds@.dom() =~= Set::empty()) by {
                assert forall|k: u32| !self.data_shreds@.contains_key(k) by {
                    if start.contains_key(k) {
                        assert(keys@.to_set().contains(k));
                        let j = choose|j: int| 0 <= j < keys@.len() && keys@[j] == k;
                    }
                }
            }
            assert(self.data_shreds@.map_values(f) =~= Map::empty());
            assert(self.model() =~= (SlotModel { data: Map::empty(), ..old(self).model() }));
            assert forall|j: int| 0 <= j < shreds@.len() implies (#[trigger] shreds@[j]).model()
                == old(self).model().data[shreds@[j].index].0 by {
                assert(keys@.to_set().contains(keys@[j]));
                assert(start.contains_key(keys@[j]));
            }
            assert(self.model().data.dom() =~= Set::empty());
        }
        shreds
    }

    /// The indices up to the last one that have not arrived, in ascending order.
    pub fn missing(&self) -> (r: Vec<u32>)
        requires
            self.sound(),
        ensures
            r@ == missing_of(self.model()),
    {
        let mut out: Vec<u32> = Vec::new();
        if let Some(last) = self.last_index {
            let ghost data = self.model().data;
            proof {
                lemma_values_dom(self.data_shreds@, |s: MerkleDataShred| s.model());
            }
            let mut i: u32 = 0;
            while i <= last
                invariant
                    i <= last + 1,
                    last < u32::MAX,
                    data.dom() == self.data_shreds@.dom(),
                    out@ == missing_below(data, i as nat),
                decreases last + 1 - i,
            {
                proof {
                    lemma_u32_keys();
                    assert(data.contains_key(i) == self.data_shreds@.contains_key(i));
                }
                if !self.data_shreds.contains_key(&i) {
                    out.push(i);
                }
                i = i + 1;
            }
        }
        out
    }

    /// Put the block together if everything has arrived, from the data shreds up to the last
    /// one. The data shreds are used up, whether or not they make a block.
    fn assemble(&mut self, Ghost(slot): Ghost<u64>, Ghost(limit): Ghost<u32>) -> (r: Option<Block>)
        requires
            old(self).well_formed(slot, limit),
        ensures
            final(self).well_formed(slot, limit),
            final(self).model() == after_assembly(old(self).model()),
            r.model() == assembled(old(self).model()),
    {
        let ghost s = self.model();
        if !self.is_complete() {
            return None;
        }
        let last: u32 = match self.last_index {
            Some(last) => last,
            None => {
                return None;
            },
        };
        let mut sorted: Vec<DataShred> = self.take_sorted_shreds(Ghost(slot), Ghost(limit));
        proof {
            let keys = Seq::new(sorted@.len(), |i: int| sorted@[i].index);
            assert(s.data.dom() == keys.to_set());
            assert forall|k: u32| k <= last implies #[trigger] keys.to_set().contains(k) by {
                assert(s.data.contains_key(k));
            }
            assert forall|i: int| 0 <= i <= last implies i < sorted@.len() && (
            #[trigger] sorted@[i]).index == i as u32 by {
                lemma_ascending_full(keys, last, i);
            }
            lemma_ascending_full(keys, last, last as int);
        }
        // Whatever lies behind the last one is not part of the block.
        sorted.truncate(last as usize + 1);
        proof {
            let m = shred_models(sorted@);
            assert(m.len() == last + 1);
            assert forall|i: int| 0 <= i < m.len() implies m[i] == in_order(s)[i] by {
                assert(sorted@[i].model() == s.data[sorted@[i].index].0);
            }
            assert(m =~= in_order(s));
            assert(m.last() == s.data[last].0);
            assert forall|i: int| 0 <= i < m.len() implies #[trigger] in_place(m, i) by {
                assert(m[i] == sorted@[i].model());
            }
        }
        match Deshredder::deshred(sorted.as_slice()) {
            Ok(block) => Some(block),
            Err(_) => None,
        }
    }
}

// ---------------------------------------------------------------------------
// The collector
// ---------------------------------------------------------------------------

/// The slots that are being gathered.
pub type SlotTable = dashmap::DashMap<u64, SlotShreds>;

/// What the table of slots holds.
pub uninterp spec fn slot_table_rows(table: SlotTable) -> Map<u64, SlotShreds>;

impl Table<u64, SlotShreds> for SlotTable {
    open spec fn rows(&self) -> Map<u64, SlotShreds> {
        slot_table_rows(*self)
    }
}

/// `DashMap::new`: a table without slots.
#[verifier::external_body]
fn new_slot_table() -> (table: SlotTable)
    ensures
        slot_table_rows(table).dom() == Set::<u64>::empty(),
{
    dashmap::DashMap::new()
}

/// What a collector knows of the slots.
#[verifier::ext_equal]
pub struct CollectorModel {
    /// Slots that are being gathered.
    pub slots: Map<u64, SlotModel>,
    /// Slots whose blocks are stored.
    pub stored: Set<u64>,
    /// Slots known to be empty, which repair leaves alone.
    pub skipped: Set<u64>,
}

/// The earliest of some slots.
pub open spec fn earliest(slots: Set<u64>) -> u64 {
    choose|k: u64| #[trigger] slots.contains(k) && forall|j: u64| slots.contains(j) ==> k <= j
}

/// The slots, without the earliest if there are as many as may be.
pub open spec fn with_room(slots: Map<u64, SlotModel>, cap: nat) -> Map<u64, SlotModel> {
    if slots.dom().len() >= cap && slots.dom().len() > 0 {
        slots.remove(earliest(slots.dom()))
    } else {
        slots
    }
}

/// The slots, with the given one among them.
pub open spec fn tracking(slots: Map<u64, SlotModel>, cap: nat, slot: u64) -> Map<u64, SlotModel> {
    if slots.contains_key(slot) {
        slots
    } else {
        with_room(slots, cap).insert(slot, empty_slot())
    }
}

/// A data shred arrives, with word on whether its proof verifies against the root of the
/// slot's header; without a header it does not matter.
pub open spec fn receive_data(s: SlotModel, limit: u32, m: DataModel, proof_valid: bool) -> (
    SlotModel,
    Option<BlockModel>,
) {
    if (s.header is Some && !proof_valid) || !admits_data(s, limit, m) {
        (s, None)
    } else {
        (after_assembly(with_data(s, m)), assembled(with_data(s, m)))
    }
}

/// A code shred arrives.
pub open spec fn receive_code(s: SlotModel, limit: u32, m: CodeModel, proof_valid: bool) -> (
    SlotModel,
    bool,
) {
    if (s.header is Some && !proof_valid) || !admits_code(s, limit, m) {
        (s, false)
    } else {
        (with_code(s, m), true)
    }
}

/// What is gathered once something of a slot was taken in: with a block, the slot counts as
/// stored and is no longer gathered.
pub open spec fn settled(
    was: CollectorModel,
    slots: Map<u64, SlotModel>,
    slot: u64,
    entry: SlotModel,
    block: Option<BlockModel>,
) -> CollectorModel {
    match block {
        Some(_) => CollectorModel {
            slots: slots.remove(slot),
            stored: was.stored.insert(slot),
            ..was
        },
        None => CollectorModel { slots: slots.insert(slot, entry), ..was },
    }
}

/// The slot under its header, rid of the shreds whose proofs do not verify against it.
pub open spec fn under_header(
    s: SlotModel,
    h: HeaderModel,
    bad_data: Set<u32>,
    bad_code: Set<u32>,
) -> SlotModel {
    without_code(without_data(SlotModel { header: Some(h), ..s }, bad_data), bad_code)
}

/// What the check says of data shreds under a root: `bad` are the indices of those whose
/// proofs do not verify.
pub open spec fn data_judged<V: Fn(&MerkleProof, &Vec<u8>, &Digest) -> bool>(
    check: V,
    data: Map<u32, DataModel>,
    root: Digest,
    bad: Set<u32>,
) -> bool {
    &&& bad.subset_of(data.dom())
    &&& forall|i: u32| #[trigger]
        data.contains_key(i) ==> data_verdict(check, data[i], root, !bad.contains(i))
}

/// What the check says of code shreds under a root: `bad` are the indices of those whose
/// proofs do not verify.
pub open spec fn code_judged<V: Fn(&MerkleProof, &Vec<u8>, &Digest) -> bool>(
    check: V,
    code: Map<u32, CodeModel>,
    root: Digest,
    bad: Set<u32>,
) -> bool {
    &&& bad.subset_of(code.dom())
    &&& forall|i: u32| #[trigger]
        code.contains_key(i) ==> code_verdict(check, code[i], root, !bad.contains(i))
}

/// The header of the slot is there.
pub open spec fn header_known(c: CollectorModel, slot: u64) -> bool {
    c.slots.contains_key(slot) && c.slots[slot].header is Some
}

/// What the check says of an arriving data shred, if it is known which root it has to
/// verify against.
pub open spec fn arriving_data<V: Fn(&MerkleProof, &Vec<u8>, &Digest) -> bool>(
    check: V,
    c: CollectorModel,
    m: DataModel,
    ok: bool,
) -> bool {
    header_known(c, data_slot(m)) ==> data_verdict(
        check,
        m,
        (c.slots[data_slot(m)].header->0).merkle_root,
        ok,
    )
}

/// What the check says of an arriving code shred, if it is known which root it has to
/// verify against.
pub open spec fn arriving_code<V: Fn(&MerkleProof, &Vec<u8>, &Digest) -> bool>(
    check: V,
    c: CollectorModel,
    m: CodeModel,
    ok: bool,
) -> bool {
    header_known(c, code_slot(m)) ==> code_verdict(
        check,
        m,
        (c.slots[code_slot(m)].header->0).merkle_root,
        ok,
    )
}

/// What is gathered once a slot is to be asked for: the slot too, unless its block is stored or
/// it is known to be empty.
pub open spec fn repair_requested(was: CollectorModel, cap: nat, slot: u64) -> CollectorModel {
    if was.stored.contains(slot) || was.skipped.contains(slot) {
        was
    } else {
        CollectorModel { slots: tracking(was.slots, cap, slot), ..was }
    }
}

/// Slots before the cutoff.
pub open spec fn before(cutoff: u64) -> Set<u64> {
    Set::new(|k: u64| k < cutoff)
}

proof fn lemma_earliest(slots: Set<u64>, k: u64)
    requires
        slots.contains(k),
        forall|j: u64| slots.contains(j) ==> k <= j,
    ensures
        earliest(slots) == k,
{
    let e = earliest(slots);
    assert(slots.contains(e) && forall|j: u64| slots.contains(j) ==> e <= j);
}

pub struct ShredCollector {
    slots: SlotTable,
    stored_slots: SlotSet,
    /// Slots known to be empty/skipped: blocks `request_slot_repair()` but not
    /// `insert_data_shred()` or `insert_header()`, so turbine can still deliver shreds if
    /// the slot turns out to have a block.
    skip_repair_slots: SlotSet,
    /// How many slots are being gathered.
    slot_count: usize,
    max_shreds_per_slot: u32,
    max_tracked_slots: usize,
}

/// What a header does: the check says which buffered shreds do not verify under its root,
/// and those are gone; with all data shreds there, the block is put together. Nothing
/// happens if the slot is stored.
pub open spec fn under_root<V: Fn(&MerkleProof, &Vec<u8>, &Digest) -> bool>(
    check: V,
    was: &ShredCollector,
    is: &ShredCollector,
    h: HeaderModel,
    r: Option<Block>,
) -> bool {
    let slots = tracking(was.model().slots, was.slot_cap(), h.slot);
    let s = slots[h.slot];
    if was.model().stored.contains(h.slot) {
        r is None && is.model() == was.model()
    } else {
        exists|bad_data: Set<u32>, bad_code: Set<u32>| #[trigger]
            data_judged(check, s.data, h.merkle_root, bad_data) && #[trigger] code_judged(
                check,
                s.code,
                h.merkle_root,
                bad_code,
            ) && {
                let entry = under_header(s, h, bad_data, bad_code);
                &&& is.model() == settled(
                    was.model(),
                    slots,
                    h.slot,
                    after_assembly(entry),
                    assembled(entry),
                )
                &&& r.model() == assembled(entry)
            }
    }
}

/// What a data shred does, given whether its proof verifies.
pub open spec fn data_taken(
    was: &ShredCollector,
    is: &ShredCollector,
    m: DataModel,
    proof_valid: bool,
    r: Option<Block>,
) -> bool {
    let slot = data_slot(m);
    let slots = tracking(was.model().slots, was.slot_cap(), slot);
    let (entry, block) = receive_data(slots[slot], was.shred_limit(), m, proof_valid);
    if was.model().stored.contains(slot) {
        r is None && is.model() == was.model()
    } else {
        &&& is.model() == settled(was.model(), slots, slot, entry, block)
        &&& r.model() == block
    }
}

/// What a code shred does, given whether its proof verifies.
pub open spec fn code_taken(
    was: &ShredCollector,
    is: &ShredCollector,
    m: CodeModel,
    proof_valid: bool,
    r: bool,
) -> bool {
    let slot = code_slot(m);
    let slots = tracking(was.model().slots, was.slot_cap(), slot);
    let (entry, accepted) = receive_code(slots[slot], was.shred_limit(), m, proof_valid);
    if was.model().stored.contains(slot) {
        !r && is.model() == was.model()
    } else {
        &&& is.model() == (CollectorModel { slots: slots.insert(slot, entry), ..was.model() })
        &&& r == accepted
    }
}

impl ShredCollector {
    pub closed spec fn model(&self) -> CollectorModel {
        CollectorModel {
            slots: self.slots.rows().map_values(|s: SlotShreds| s.model()),
            stored: self.stored_slots.rows().dom(),
            skipped: self.skip_repair_slots.rows().dom(),
        }
    }

    /// The most shreds, of both kinds together, that are kept of a slot.
    pub closed spec fn shred_limit(&self) -> u32 {
        self.max_shreds_per_slot
    }

    /// The most slots that are gathered at a time.
    pub closed spec fn slot_cap(&self) -> nat {
        self.max_tracked_slots as nat
    }

    /// No more slots are gathered than may be (one slot always may), none of them is
    /// stored, and each holds its own shreds, within the limit.
    pub closed spec fn well_formed(&self) -> bool {
        &&& self.slots.rows().dom().finite()
        &&& self.slot_count == self.slots.rows().dom().len()
        &&& self.slot_count <= self.max_tracked_slots || self.slot_count <= 1
        &&& forall|k: u64| #[trigger]
            self.slots.rows().contains_key(k) ==> {
                &&& !self.stored_slots.rows().contains_key(k)
                &&& self.slots.rows()[k].well_formed(k, self.max_shreds_per_slot)
            }
    }

    /// A collector that keeps up to `max_shreds_per_slot` shreds of each of up to
    /// `max_tracked_slots` slots.
    pub fn new(max_shreds_per_slot: u32, max_tracked_slots: usize) -> (r: Self)
        ensures
            r.well_formed(),
            r.shred_limit() == max_shreds_per_slot,
            r.slot_cap() == max_tracked_slots,
            r.model() == (CollectorModel {
                slots: Map::empty(),
                stored: Set::empty(),
                skipped: Set::empty(),
            }),
    {
        let r = ShredCollector {
            slots: new_slot_table(),
            stored_slots: new_slot_set(),
            skip_repair_slots: new_slot_set(),
            slot_count: 0,
            max_shreds_per_slot,
            max_tracked_slots,
        };
        assert(r.model() =~= (CollectorModel {
            slots: Map::empty(),
            stored: Set::empty(),
            skipped: Set::empty(),
        }));
        r
    }

    /// The collector's limits did not change.
    pub open spec fn same_limits(&self, other: &Self) -> bool {
        self.shred_limit() == other.shred_limit() && self.slot_cap() == other.slot_cap()
    }

    /// The slot's block is stored: its shreds are dropped, and no more are taken in.
    pub fn mark_slot_stored(&mut self, slot: u64)
        requires
            old(self).well_formed(),
        ensures
            final(self).well_formed(),
            final(self).same_limits(old(self)),
            final(self).model() == (CollectorModel {
                slots: old(self).model().slots.remove(slot),
                stored: old(self).model().stored.insert(slot),
                ..old(self).model()
            }),
    {
        let _ = table_insert(&mut self.stored_slots, slot, ());
        self.drop_slot(slot);
        assert(self.model() =~= (CollectorModel {
            slots: old(self).model().slots.remove(slot),
            stored: old(self).model().stored.insert(slot),
            ..old(self).model()
        }));
    }

    /// Forget what has arrived of a slot.
    fn drop_slot(&mut self, slot: u64)
        requires
            old(self).slots.rows().dom().finite(),
            old(self).slot_count == old(self).slots.rows().dom().len(),
        ensures
            final(self).slots.rows() == old(self).slots.rows().remove(slot),
            final(self).slots.rows().dom().finite(),
            final(self).slot_count == final(self).slots.rows().dom().len(),
            final(self).slot_count <= old(self).slot_count,
            final(self).stored_slots == old(self).stored_slots,
            final(self).skip_repair_slots == old(self).skip_repair_slots,
            final(self).max_shreds_per_slot == old(self).max_shreds_per_slot,
            final(self).max_tracked_slots == old(self).max_tracked_slots,
    {
        let ghost rows = self.slots.rows();
        match table_remove(&mut self.slots, &slot) {
            Some(_) => {
                assert(rows.remove(slot).dom() =~= rows.dom().remove(slot));
                self.slot_count = self.slot_count - 1;
            },
            None => {
                assert(rows.remove(slot) =~= rows);
            },
        }
    }

    /// Mark a slot as "known empty": repair won't re-request it, but turbine shreds are
    /// still accepted if the slot has a block.
    pub fn mark_slot_empty(&mut self, slot: u64)
        requires
            old(self).well_formed(),
        ensures
            final(self).well_formed(),
            final(self).same_limits(old(self)),
            final(self).model() == (CollectorModel {
                skipped: old(self).model().skipped.insert(slot),
                ..old(self).model()
            }),
    {
        let _ = table_insert(&mut self.skip_repair_slots, slot, ());
        assert(self.model() =~= (CollectorModel {
            skipped: old(self).model().skipped.insert(slot),
            ..old(self).model()
        }));
    }

    pub fn is_slot_stored(&self, slot: u64) -> (r: bool)
        ensures
            r == self.model().stored.contains(slot),
    {
        table_contains(&self.stored_slots, &slot)
    }

    /// Evict the oldest slot to make room. Returns `true` if a slot was evicted.
    fn evict_oldest_slot(&mut self) -> (r: bool)
        requires
            old(self).well_formed(),
        ensures
            final(self).well_formed(),
            final(self).same_limits(old(self)),
            final(self).stored_slots == old(self).stored_slots,
            final(self).skip_repair_slots == old(self).skip_repair_slots,
            r == (old(self).slots.rows().dom().len() > 0),
            r ==> old(self).slots.rows().contains_key(earliest(old(self).slots.rows().dom())),
            final(self).slots.rows() == if r {
                old(self).slots.rows().remove(earliest(old(self).slots.rows().dom()))
            } else {
                old(self).slots.rows()
            },
    {
        let keys: Vec<u64> = table_keys(&self.slots);
        let n: usize = keys.len();
        let ghost dom = self.slots.rows().dom();
        if n == 0 {
            assert(keys@ =~= Seq::empty());
            assert(dom =~= Set::empty());
            return false;
        }
        let mut oldest: u64 = keys[0];
        let mut i: usize = 1;
        assert(keys@.take(1)[0] == oldest);
        while i < n
            invariant
                1 <= i <= n == keys@.len(),
                keys@.take(i as int).contains(oldest),
                forall|j: int| 0 <= j < i ==> oldest <= keys@[j],
            decreases n - i,
        {
            let ghost was = oldest;
            if keys[i] < oldest {
                oldest = keys[i];
            }
            proof {
                let j = choose|j: int| 0 <= j < i && keys@.take(i as int)[j] == was;
                assert(keys@.take(i + 1)[j] == was);
                assert(keys@.take(i + 1)[i as int] == keys@[i as int]);
            }
            i = i + 1;
        }
        proof {
            assert(keys@.take(n as int) =~= keys@);
            assert(keys@.to_set().contains(oldest));
            assert forall|k: u64| dom.contains(k) implies oldest <= k by {
                assert(keys@.to_set().contains(k));
                let j = choose|j: int| 0 <= j < keys@.len() && keys@[j] == k;
            }
            lemma_earliest(dom, oldest);
            assert(dom.len() > 0) by {
                if dom.len() == 0 {
                    assert(dom =~= Set::empty());
                }
            }
        }
        self.drop_slot(oldest);
        true
    }

    /// Evict the oldest slot if there are as many as may be.
    fn make_room(&mut self)
        requires
            old(self).well_formed(),
        ensures
            final(self).well_formed(),
            final(self).same_limits(old(self)),
            final(self).stored_slots == old(self).stored_slots,
            final(self).skip_repair_slots == old(self).skip_repair_slots,
            final(self).slot_count < final(self).max_tracked_slots || final(self).slot_count == 0,
            final(self).slots.rows() == if old(self).slots.rows().dom().len()
                >= old(self).slot_cap() && old(self).slots.rows().dom().len() > 0 {
                old(self).slots.rows().remove(earliest(old(self).slots.rows().dom()))
            } else {
                old(self).slots.rows()
            },
    {
        if self.slot_count >= self.max_tracked_slots {
            let ghost rows = self.slots.rows();
            let _ = self.evict_oldest_slot();
            proof {
                if rows.dom().len() > 0 {
                    let e = earliest(rows.dom());
                    assert(rows.remove(e).dom() =~= rows.dom().remove(e));
                }
            }
        }
    }

    /// Start gathering a slot.
    fn add_slot(&mut self, slot: u64)
        requires
            old(self).well_formed(),
            !old(self).slots.rows().contains_key(slot),
            !old(self).stored_slots.rows().contains_key(slot),
            old(self).slot_count < old(self).max_tracked_slots || old(self).slot_count == 0,
        ensures
            final(self).well_formed(),
            final(self).same_limits(old(self)),
            final(self).stored_slots == old(self).stored_slots,
            final(self).skip_repair_slots == old(self).skip_repair_slots,
            final(self).slots.rows().contains_key(slot),
            final(self).slots.rows()[slot].model() == empty_slot(),
            final(self).slots.rows() == old(self).slots.rows().insert(
                slot,
                final(self).slots.rows()[slot],
            ),
    {
        let fresh = SlotShreds::new();
        proof {
            let rows = self.slots.rows();
            assert(rows.insert(slot, fresh).dom() =~= rows.dom().insert(slot));
            assert(fresh.well_formed(slot, self.max_shreds_per_slot));
        }
        let _ = table_insert(&mut self.slots, slot, fresh);
        self.slot_count = self.slot_count + 1;
    }

    /// Make sure that the slot is being gathered, evicting the oldest if there are too
    /// many.
    fn get_or_insert_slot(&mut self, slot: u64)
        requires
            old(self).well_formed(),
            !old(self).stored_slots.rows().contains_key(slot),
        ensures
            final(self).well_formed(),
            final(self).same_limits(old(self)),
            final(self).stored_slots == old(self).stored_slots,
            final(self).skip_repair_slots == old(self).skip_repair_slots,
            final(self).slots.rows().contains_key(slot),
            final(self).model() == (CollectorModel {
                slots: tracking(old(self).model().slots, old(self).slot_cap(), slot),
                ..old(self).model()
            }),
    {
        let ghost f = |s: SlotShreds| s.model();
        let ghost rows = self.slots.rows();
        proof {
            lemma_values_dom(rows, f);
        }
        if !table_contains(&self.slots, &slot) {
            self.make_room();
            let ghost here = self.slots.rows();
            proof {
                lemma_values_remove(rows, f, earliest(rows.dom()));
            }
            self.add_slot(slot);
            proof {
                lemma_values_insert(here, f, slot, self.slots.rows()[slot]);
            }
        }
    }

    /// Take a slot's entry out of the table, to be put back by `put_slot`.
    fn take_slot(&mut self, slot: u64) -> (entry: SlotShreds)
        requires
            old(self).slots.rows().contains_key(slot),
        ensures
            entry == old(self).slots.rows()[slot],
            final(self).slots.rows() == old(self).slots.rows().remove(slot),
            *final(self) == (ShredCollector { slots: final(self).slots, ..*old(self) }),
    {
        match table_remove(&mut self.slots, &slot) {
            Some(entry) => entry,
            None => SlotShreds::new(),
        }
    }

    /// Put a slot's entry back.
    fn put_slot(&mut self, slot: u64, entry: SlotShreds, Ghost(before): Ghost<ShredCollector>)
        requires
            before.well_formed(),
            before.slots.rows().contains_key(slot),
            old(self).slots.rows() == before.slots.rows().remove(slot),
            *old(self) == (ShredCollector { slots: old(self).slots, ..before }),
            entry.well_formed(slot, before.max_shreds_per_slot),
        ensures
            final(self).well_formed(),
            final(self).same_limits(&before),
            final(self).model() == (CollectorModel {
                slots: before.model().slots.insert(slot, entry.model()),
                ..before.model()
            }),
    {
        let _ = table_insert(&mut self.slots, slot, entry);
        proof {
            let f = |s: SlotShreds| s.model();
            let rows = before.slots.rows();
            assert(self.slots.rows() =~= rows.insert(slot, entry));
            assert(rows.insert(slot, entry).dom() =~= rows.dom());
            lemma_values_insert(rows, f, slot, entry);
        }
    }

    /// Insert a `ShredBatchHeader`.
    ///
    /// Shreds that arrived before the header are verified against its Merkle root only
    /// now, by `check`, and those that fail are evicted. If all data shreds are there after
    /// that, the block is put together and returned, and the slot counts as stored.
    pub fn insert_header<V: Fn(&MerkleProof, &Vec<u8>, &Digest) -> bool + Copy>(
        &mut self,
        header: ShredBatchHeader,
        check: V,
    ) -> (r: Option<Block>)
        requires
            old(self).well_formed(),
            checks_all(check),
        ensures
            final(self).well_formed(),
            final(self).same_limits(old(self)),
            under_root(check, old(self), final(self), header.model(), r),
    {
        let slot: u64 = header.slot;
        if table_contains(&self.stored_slots, &slot) {
            return None;
        }
        self.get_or_insert_slot(slot);
        let ghost before = *self;
        let ghost limit = self.max_shreds_per_slot;
        let ghost h = header.model();
        let merkle_root: Digest = header.merkle_root;
        let mut entry: SlotShreds = self.take_slot(slot);
        let ghost first = entry.model();
        entry.header = Some(header);
        assert(entry.model() =~= (SlotModel { header: Some(h), ..first }));
        let bad_data: Vec<u32> = entry.verify_buffered_data_shreds(
            &merkle_root,
            check,
            Ghost(slot),
            Ghost(limit),
        );
        let bad_code: Vec<u32> = entry.verify_buffered_code_shreds(
            &merkle_root,
            check,
            Ghost(slot),
            Ghost(limit),
        );
        let r = entry.assemble(Ghost(slot), Ghost(limit));
        self.put_slot(slot, entry, Ghost(before));
        self.settle(slot, r.is_some());
        proof {
            let was = old(self).model();
            let slots = tracking(was.slots, old(self).slot_cap(), slot);
            assert(before.model().slots[slot] == first);
            assert(data_judged(check, slots[h.slot].data, h.merkle_root, bad_data@.to_set()));
            assert(code_judged(check, slots[h.slot].code, h.merkle_root, bad_code@.to_set()));
            let under = under_header(slots[slot], h, bad_data@.to_set(), bad_code@.to_set());
            assert(self.model() =~= settled(
                was,
                slots,
                slot,
                after_assembly(under),
                assembled(under),
            ));
            assert(r.model() == assembled(under));
        }
        r
    }

    /// With a block, the slot counts as stored and is no longer gathered.
    fn settle(&mut self, slot: u64, complete: bool)
        requires
            old(self).well_formed(),
        ensures
            final(self).well_formed(),
            final(self).same_limits(old(self)),
            final(self).model() == if complete {
                CollectorModel {
                    slots: old(self).model().slots.remove(slot),
                    stored: old(self).model().stored.insert(slot),
                    ..old(self).model()
                }
            } else {
                old(self).model()
            },
    {
        if complete {
            self.mark_slot_stored(slot);
        }
    }

    /// Get the cached Merkle root for a slot (if header has been received).
    pub fn get_merkle_root(&self, slot: u64) -> (r: Option<Digest>)
        requires
            self.well_formed(),
        ensures
            r == if self.model().slots.contains_key(slot) && self.model().slots[slot].header is Some {
                Some((self.model().slots[slot].header->0).merkle_root)
            } else {
                None
            },
    {
        let found: Option<Option<Digest>> = table_get(&self.slots, &slot, SlotShreds::merkle_root);
        match found {
            Some(root) => root,
            None => None,
        }
    }

    /// Check if we have the batch header for a slot.
    pub fn has_header(&self, slot: u64) -> (r: bool)
        requires
            self.well_formed(),
        ensures
            r == (self.model().slots.contains_key(slot)
                && self.model().slots[slot].header is Some),
    {
        self.get_merkle_root(slot).is_some()
    }

    /// Insert a Merkle data shred. Returns the block if the slot is now complete; the slot
    /// then counts as stored.
    ///
    /// If the batch header has not yet arrived, the shred is buffered without Merkle
    /// verification and block assembly is deferred until `insert_header` provides the
    /// Merkle root, so that forged shreds cannot bypass proof verification. If it has, the
    /// shred is verified by `check`, and rejected if that fails.
    pub fn insert_data_shred<V: Fn(&MerkleProof, &Vec<u8>, &Digest) -> bool>(
        &mut self,
        shred: &MerkleDataShred,
        check: V,
    ) -> (r: Option<Block>)
        requires
            old(self).well_formed(),
            shred.well_formed(),
            checks_all(check),
        ensures
            final(self).well_formed(),
            final(self).same_limits(old(self)),
            exists|ok: bool| #[trigger]
                arriving_data(check, old(self).model(), shred.model(), ok) && data_taken(
                    old(self),
                    final(self),
                    shred.model(),
                    ok,
                    r,
                ),
    {
        let ok = match self.get_merkle_root(shred.slot()) {
            Some(root) => shred.verify(&root, check),
            None => false,
        };
        assert(arriving_data(check, self.model(), shred.model(), ok));
        self.admit_data_shred(shred, ok)
    }

    /// Insert a Merkle data shred of which `proof_valid` says whether its proof verifies
    /// against the root that `get_merkle_root` gives, if that gives one.
    pub fn admit_data_shred(&mut self, shred: &MerkleDataShred, proof_valid: bool) -> (r: Option<
        Block,
    >)
        requires
            old(self).well_formed(),
            shred.well_formed(),
        ensures
            final(self).well_formed(),
            final(self).same_limits(old(self)),
            data_taken(old(self), final(self), shred.model(), proof_valid, r),
    {
        let slot: u64 = shred.slot();
        assert(data_slot(shred.model()) == slot);
        if table_contains(&self.stored_slots, &slot) {
            return None;
        }
        self.get_or_insert_slot(slot);
        let ghost before = *self;
        let ghost limit = self.max_shreds_per_slot;
        let max: u32 = self.max_shreds_per_slot;
        let mut entry: SlotShreds = self.take_slot(slot);
        let mut r: Option<Block> = None;
        if entry.header.is_none() || proof_valid {
            if entry.insert(shred, max) {
                r = entry.assemble(Ghost(slot), Ghost(limit));
            }
        }
        self.put_slot(slot, entry, Ghost(before));
        self.settle(slot, r.is_some());
        proof {
            let was = old(self).model();
            let slots = tracking(was.slots, old(self).slot_cap(), slot);
            let (entry, block) = receive_data(slots[slot], limit, shred.model(), proof_valid);
            assert(self.model() =~= settled(was, slots, slot, entry, block));
        }
        r
    }

    /// Insert a Merkle code (FEC) shred.
    ///
    /// Code shreds cannot trigger block assembly on their own. If the batch header has
    /// already arrived, the shred is verified by `check`, and rejected if that fails.
    pub fn insert_code_shred<V: Fn(&MerkleProof, &Vec<u8>, &Digest) -> bool>(
        &mut self,
        shred: &MerkleCodeShred,
        check: V,
    ) -> (r: bool)
        requires
            old(self).well_formed(),
            shred.well_formed(),
            checks_all(check),
        ensures
            final(self).well_formed(),
            final(self).same_limits(old(self)),
            exists|ok: bool| #[trigger]
                arriving_code(check, old(self).model(), shred.model(), ok) && code_taken(
                    old(self),
                    final(self),
                    shred.model(),
                    ok,
                    r,
                ),
    {
        let ok = match self.get_merkle_root(shred.slot()) {
            Some(root) => shred.verify(&root, check),
            None => false,
        };
        assert(arriving_code(check, self.model(), shred.model(), ok));
        self.admit_code_shred(shred, ok)
    }

    /// Insert a Merkle code shred of which `proof_valid` says whether its proof verifies
    /// against the root that `get_merkle_root` gives, if that gives one.
    pub fn admit_code_shred(&mut self, shred: &MerkleCodeShred, proof_valid: bool) -> (r: bool)
        requires
            old(self).well_formed(),
            shred.well_formed(),
        ensures
            final(self).well_formed(),
            final(self).same_limits(old(self)),
            code_taken(old(self), final(self), shred.model(), proof_valid, r),
    {
        let slot: u64 = shred.slot();
        if table_contains(&self.stored_slots, &slot) {
            return false;
        }
        self.get_or_insert_slot(slot);
        let ghost before = *self;
        let max: u32 = self.max_shreds_per_slot;
        let mut entry: SlotShreds = self.take_slot(slot);
        let mut r = false;
        if entry.header.is_none() || proof_valid {
            r = entry.insert_code(shred, max);
        }
        self.put_slot(slot, entry, Ghost(before));
        r
    }

    /// The indices up to the last one that have not arrived, in ascending order; none
    /// while the last one is unknown.
    pub fn missing_shreds(&self, slot: u64) -> (r: Vec<u32>)
        requires
            self.well_formed(),
        ensures
            r@ == if self.model().slots.contains_key(slot) {
                missing_of(self.model().slots[slot])
            } else {
                Seq::empty()
            },
    {
        let found: Option<Vec<u32>> = table_get(&self.slots, &slot, SlotShreds::missing);
        match found {
            Some(v) => v,
            None => Vec::new(),
        }
    }

    pub fn has_slot(&self, slot: u64) -> (r: bool)
        ensures
            r == self.model().slots.contains_key(slot),
    {
        table_contains(&self.slots, &slot)
    }

    /// The number of buffered data shreds for `slot`.
    pub fn shred_count(&self, slot: u64) -> (r: usize)
        ensures
            r == if self.model().slots.contains_key(slot) {
                self.model().slots[slot].data.dom().len()
            } else {
                0
            },
    {
        let found: Option<usize> = table_get(&self.slots, &slot, SlotShreds::data_count);
        match found {
            Some(n) => n,
            None => 0,
        }
    }

    /// The number of buffered code (FEC) shreds for `slot`.
    pub fn code_shred_count(&self, slot: u64) -> (r: usize)
        ensures
            r == if self.model().slots.contains_key(slot) {
                self.model().slots[slot].code.dom().len()
            } else {
                0
            },
    {
        let found: Option<usize> = table_get(&self.slots, &slot, SlotShreds::code_count);
        match found {
            Some(n) => n,
            None => 0,
        }
    }

    pub fn is_slot_complete(&self, slot: u64) -> (r: bool)
        requires
            self.well_formed(),
        ensures
            r == (self.model().slots.contains_key(slot) && all_arrived(
                self.model().slots[slot],
            )),
    {
        let found: Option<bool> = table_get(&self.slots, &slot, SlotShreds::is_complete);
        match found {
            Some(b) => b,
            None => false,
        }
    }

    /// Forget what has arrived of a slot.
    pub fn remove_slot(&mut self, slot: u64)
        requires
            old(self).well_formed(),
        ensures
            final(self).well_formed(),
            final(self).same_limits(old(self)),
            final(self).model() == (CollectorModel {
                slots: old(self).model().slots.remove(slot),
                ..old(self).model()
            }),
    {
        let ghost rows = self.slots.rows();
        self.drop_slot(slot);
        proof {
            lemma_values_remove(rows, |s: SlotShreds| s.model(), slot);
        }
    }

    /// Start gathering a slot, so that its shreds are asked for, unless its block is
    /// stored or it is known to be empty.
    pub fn request_slot_repair(&mut self, slot: u64)
        requires
            old(self).well_formed(),
        ensures
            final(self).well_formed(),
            final(self).same_limits(old(self)),
            final(self).model() == repair_requested(
                old(self).model(),
                old(self).slot_cap(),
                slot,
            ),
    {
        if table_contains(&self.stored_slots, &slot) {
            return;
        }
        if table_contains(&self.skip_repair_slots, &slot) {
            return;
        }
        self.get_or_insert_slot(slot);
    }

    /// Forget everything about slots that are more than `max_age` before the current one.
    /// Returns how many slots are no longer gathered.
    pub fn cleanup_old_slots(&mut self, current_slot: u64, max_age: u64) -> (r: usize)
        requires
            old(self).well_formed(),
        ensures
            final(self).well_formed(),
            final(self).same_limits(old(self)),
            ({
                let was = old(self).model();
                let old_slots = before(
                    if current_slot >= max_age {
                        (current_slot - max_age) as u64
                    } else {
                        0
                    },
                );
                &&& final(self).model() == (CollectorModel {
                    slots: was.slots.remove_keys(old_slots),
                    stored: was.stored.difference(old_slots),
                    skipped: was.skipped.difference(old_slots),
                })
                &&& r == was.slots.dom().intersect(old_slots).len()
            }),
            forall|slot: u64|
                #![trigger final(self).model().slots.contains_key(slot)]
                #![trigger final(self).model().stored.contains(slot)]
                #![trigger final(self).model().skipped.contains(slot)]
                {
                    let young = slot + max_age >= current_slot;
                    let was = old(self).model();
                    let is = final(self).model();
                    &&& is.slots.contains_key(slot) == (was.slots.contains_key(slot) && young)
                    &&& is.slots.contains_key(slot) ==> is.slots[slot] == was.slots[slot]
                    &&& is.stored.contains(slot) == (was.stored.contains(slot) && young)
                    &&& is.skipped.contains(slot) == (was.skipped.contains(slot) && young)
                },
    {
        let cutoff: u64 = if current_slot >= max_age {
            current_slot - max_age
        } else {
            0
        };
        let ghost f = |s: SlotShreds| s.model();
        let ghost rows = self.slots.rows();
        let keys: Vec<u64> = table_keys(&self.slots);
        let n: usize = keys.len();
        let mut count: usize = 0;
        let mut i: usize = 0;
        let ghost mut gone = Set::<u64>::empty();
        assert(rows.remove_keys(gone) =~= rows);
        while i < n
            invariant
                i <= n == keys@.len(),
                keys@.no_duplicates(),
                keys@.to_set() == rows.dom(),
                rows == old(self).slots.rows(),
                rows.dom().finite(),
                forall|k: u64|
                    gone.contains(k) == (k < cutoff && exists|j: int|
                        0 <= j < i && #[trigger] keys@[j] == k),
                gone.finite(),
                gone.len() == count,
                count <= i,
                self.slots.rows() == rows.remove_keys(gone),
                self.slots.rows().dom().finite(),
                self.slot_count == self.slots.rows().dom().len(),
                self.slot_count <= old(self).slot_count,
                self.stored_slots == old(self).stored_slots,
                self.skip_repair_slots == old(self).skip_repair_slots,
                self.max_shreds_per_slot == old(self).max_shreds_per_slot,
                self.max_tracked_slots == old(self).max_tracked_slots,
            decreases n - i,
        {
            let slot: u64 = keys[i];
            if slot < cutoff {
                proof {
                    assert(!gone.contains(slot));
                    assert(rows.remove_keys(gone).remove(slot) =~= rows.remove_keys(
                        gone.insert(slot),
                    ));
                }
                self.drop_slot(slot);
                count = count + 1;
                proof {
                    let was = gone;
                    gone = gone.insert(slot);
                    assert forall|k: u64|
                        gone.contains(k) == (k < cutoff && exists|j: int|
                            0 <= j < i + 1 && #[trigger] keys@[j] == k) by {
                        if k == slot {
                            assert(keys@[i as int] == k);
                        }
                        if was.contains(k) {
                            let j = choose|j: int| 0 <= j < i && #[trigger] keys@[j] == k;
                            assert(keys@[j] == k);
                        }
                    }
                }
            }
            i = i + 1;
        }
        let ghost old_slots = before(cutoff);
        proof {
            assert(gone =~= rows.dom().intersect(old_slots)) by {
                assert forall|k: u64| gone.contains(k) == rows.dom().intersect(
                    old_slots,
                ).contains(k) by {
                    if rows.dom().contains(k) && k < cutoff {
                        assert(keys@.to_set().contains(k));
                        let j = choose|j: int| 0 <= j < keys@.len() && keys@[j] == k;
                        assert(keys@[j] == k);
                    }
                    if gone.contains(k) {
                        let j = choose|j: int| 0 <= j < n && #[trigger] keys@[j] == k;
                        assert(keys@.to_set().contains(k));
                    }
                }
            }
            assert(rows.remove_keys(gone) =~= rows.remove_keys(old_slots));
        }
        forget_before(&mut self.stored_slots, cutoff);
        forget_before(&mut self.skip_repair_slots, cutoff);
        proof {
            lemma_values_dom(rows, f);
            assert(rows.remove_keys(old_slots).map_values(f) =~= rows.map_values(f).remove_keys(
                old_slots,
            ));
            assert(self.model() =~= (CollectorModel {
                slots: old(self).model().slots.remove_keys(old_slots),
                stored: old(self).model().stored.difference(old_slots),
                skipped: old(self).model().skipped.difference(old_slots),
            }));
        }
        count
    }

    /// The slots that are being gathered, in no particular order.
    pub fn tracked_slots(&self) -> (r: Vec<u64>)
        ensures
            r@.no_duplicates(),
            r@.to_set() == self.model().slots.dom(),
    {
        proof {
            lemma_values_dom(self.slots.rows(), |s: SlotShreds| s.model());
        }
        table_keys(&self.slots)
    }
}

/// The slots of a set that are not before the cutoff stay.
fn forget_before(set: &mut SlotSet, cutoff: u64)
    ensures
        final(set).rows().dom() == old(set).rows().dom().difference(before(cutoff)),
{
    let ghost start = set.rows();
    let keys: Vec<u64> = table_keys(set);
    let n: usize = keys.len();
    let mut i: usize = 0;
    while i < n
        invariant
            i <= n == keys@.len(),
            keys@.to_set() == start.dom(),
            forall|k: u64| #[trigger]
                set.rows().dom().contains(k) == (start.dom().contains(k) && !(k < cutoff
                    && exists|j: int| 0 <= j < i && #[trigger] keys@[j] == k)),
        decreases n - i,
    {
        let slot: u64 = keys[i];
        let ghost was = set.rows();
        if slot < cutoff {
            let _ = table_remove(set, &slot);
        }
        proof {
            assert forall|k: u64| #[trigger]
                set.rows().dom().contains(k) == (start.dom().contains(k) && !(k < cutoff
                    && exists|j: int| 0 <= j < i + 1 && #[trigger] keys@[j] == k)) by {
                assert(keys@[i as int] == slot);
                let _ = was.dom().contains(k);
            }
        }
        i = i + 1;
    }
    proof {
        assert forall|k: u64| set.rows().dom().contains(k) == start.dom().difference(
            before(cutoff),
        ).contains(k) by {
            if start.dom().contains(k) {
                assert(keys@.to_set().contains(k));
                let j = choose|j: int| 0 <= j < keys@.len() && keys@[j] == k;
                assert(keys@[j] == k);
            }
        }
        assert(set.rows().dom() =~= start.dom().difference(before(cutoff)));
    }
}

// ---------------------------------------------------------------------------
// Laws
// ---------------------------------------------------------------------------

/// No block is put together before the slot's header is there, and none from a shred whose
/// proof does not verify against it.
pub proof fn no_block_without_header(s: SlotModel, limit: u32, m: DataModel, proof_valid: bool)
    ensures
        receive_data(s, limit, m, proof_valid).1 is Some ==> s.header is Some && proof_valid,
        s.header is None ==> receive_data(s, limit, m, proof_valid) == (
            if admits_data(s, limit, m) {
                with_data(s, m)
            } else {
                s
            },
            None::<BlockModel>,
        ),
{
}

/// Under a header, a slot that holds all data shreds of a block, in whatever order they
/// came, gives the block.
pub proof fn complete_slot_gives_block(s: SlotModel, slot: u64, parent_offset: u16, m: BlockModel)
    requires
        <Block as Codec>::fits(m),
        holds_all(s, slot, parent_offset, <Block as Codec>::layout(m)),
    ensures
        assembled(s) == Some(m),
{
    let bytes = <Block as Codec>::layout(m);
    lemma_le_bytes_len((m.0).0 as nat, 8);
    assert(bytes.len() > 0);
    lemma_block_of(bytes, m);
    let n = chunk_count(bytes.len());
    let l = (n - 1) as u32;
    deshred_inverts_shred(slot, parent_offset, bytes);
    let all = data_models(slot, parent_offset, bytes);
    assert forall|i: int| 0 <= i < n implies in_order(s)[i] == all[i] by {
        assert(s.data.contains_key(i as u32));
    }
    assert(in_order(s) =~= all);
    assert(s.data.contains_key(l));
    assert(all.last() == s.data[l].0);
}

/// A slot with its header and with all data shreds of some bytes.
pub open spec fn holds_all(s: SlotModel, slot: u64, parent_offset: u16, bytes: Seq<u8>) -> bool {
    &&& chunk_count(bytes.len()) <= u32::MAX
    &&& s.header is Some
    &&& s.last == Some((chunk_count(bytes.len()) - 1) as u32)
    &&& forall|i: u32|
        i < chunk_count(bytes.len()) ==> #[trigger] s.data.contains_key(i) && s.data[i].0
            == data_shred_model(slot, parent_offset, bytes, i as int)
}

/// A shred that is already there, or for which there is no room, changes nothing.
pub proof fn rejected_shred_changes_nothing(
    s: SlotModel,
    limit: u32,
    m: DataModel,
    proof_valid: bool,
)
    requires
        s.data.contains_key(data_index(m)) || data_index(m) >= limit || buffered(s) >= limit,
    ensures
        receive_data(s, limit, m, proof_valid) == (s, None::<BlockModel>),
{
}

/// A slot that holds, under its header, some of the data shreds of some bytes, by their
/// indices, and nothing else.
pub open spec fn holds_some(
    s: SlotModel,
    slot: u64,
    parent_offset: u16,
    bytes: Seq<u8>,
    indices: Set<u32>,
) -> bool {
    &&& s.header is Some
    &&& s.code == Map::<u32, CodeModel>::empty()
    &&& s.data.dom() == indices
    &&& s.last == if indices.contains((chunk_count(bytes.len()) - 1) as u32) {
        Some((chunk_count(bytes.len()) - 1) as u32)
    } else {
        None
    }
    &&& forall|i: u32| #[trigger]
        indices.contains(i) ==> i < chunk_count(bytes.len()) && s.data[i].0 == data_shred_model(
            slot,
            parent_offset,
            bytes,
            i as int,
        )
}

/// The indices of shreds.
pub open spec fn indices_of(shreds: Seq<DataModel>) -> Seq<u32> {
    Seq::new(shreds.len(), |i: int| data_index(shreds[i]))
}

/// The data shreds of some bytes, each once, in any order.
pub open spec fn in_any_order(
    shreds: Seq<DataModel>,
    slot: u64,
    parent_offset: u16,
    bytes: Seq<u8>,
) -> bool {
    &&& shreds.len() == chunk_count(bytes.len())
    &&& indices_of(shreds).no_duplicates()
    &&& forall|i: int|
        0 <= i < shreds.len() ==> data_index(#[trigger] shreds[i]) < shreds.len() && shreds[i].0
            == data_shred_model(slot, parent_offset, bytes, data_index(shreds[i]) as int)
}

/// The collector `states[i]` takes in the shred `shreds[i]`, whose proof verifies: it gives
/// `results[i]`, and the collector is `states[i + 1]` then.
pub open spec fn takes_in_at(
    states: Seq<ShredCollector>,
    shreds: Seq<DataModel>,
    results: Seq<Option<Block>>,
    i: int,
) -> bool {
    &&& data_taken(&states[i], &states[i + 1], shreds[i], true, results[i])
    &&& states[i + 1].same_limits(&states[i])
}

/// A collector takes in shreds one after the other.
pub open spec fn takes_in(
    states: Seq<ShredCollector>,
    shreds: Seq<DataModel>,
    results: Seq<Option<Block>>,
) -> bool {
    &&& states.len() == shreds.len() + 1
    &&& results.len() == shreds.len()
    &&& forall|i: int|
        0 <= i < shreds.len() ==> #[trigger] takes_in_at(states, shreds, results, i)
}

/// One more of the data shreds: it is taken in, and gives the block if it is the last to
/// come.
#[verifier::rlimit(40)]
proof fn lemma_one_more(
    s: SlotModel,
    limit: u32,
    slot: u64,
    parent_offset: u16,
    m: BlockModel,
    indices: Set<u32>,
    shred: DataModel,
)
    requires
        <Block as Codec>::fits(m),
        0 < chunk_count(<Block as Codec>::layout(m).len()) <= limit,
        holds_some(s, slot, parent_offset, <Block as Codec>::layout(m), indices),
        indices.finite(),
        indices.len() < chunk_count(<Block as Codec>::layout(m).len()),
        !indices.contains(data_index(shred)),
        data_index(shred) < chunk_count(<Block as Codec>::layout(m).len()),
        shred.0 == data_shred_model(
            slot,
            parent_offset,
            <Block as Codec>::layout(m),
            data_index(shred) as int,
        ),
    ensures
        ({
            let (after, block) = receive_data(s, limit, shred, true);
            if indices.len() + 1 == chunk_count(<Block as Codec>::layout(m).len()) {
                block == Some(m)
            } else {
                &&& block is None
                &&& holds_some(
                    after,
                    slot,
                    parent_offset,
                    <Block as Codec>::layout(m),
                    indices.insert(data_index(shred)),
                )
            }
        }),
{
    let bytes = <Block as Codec>::layout(m);
    let n = chunk_count(bytes.len());
    let k = data_index(shred);
    let now = indices.insert(k);
    assert(s.code.dom() =~= Set::empty());
    assert(admits_data(s, limit, shred));
    let next = with_data(s, shred);
    assert(next.data.dom() =~= now);
    assert(has_last_flag(LAST_SHRED_FLAG) && !has_last_flag(0x00u8)) by {
        assert(0x01u8 & 0x01u8 != 0) by (bit_vector);
        assert(0x00u8 & 0x01u8 == 0) by (bit_vector);
    }
    assert(holds_some(next, slot, parent_offset, bytes, now));
    let l = (n - 1) as u32;
    lemma_up_to(l);
    if now.len() == n {
        vstd::set_lib::lemma_subset_equality(now, up_to(l));
        assert forall|i: u32| i < n implies #[trigger] next.data.contains_key(i) by {
            assert(up_to(l).contains(i));
            assert(now.contains(i));
        }
        assert(holds_all(next, slot, parent_offset, bytes)) by {
            assert(now.contains(l));
            assert forall|i: u32| i < n implies #[trigger] next.data.contains_key(i)
                && next.data[i].0 == data_shred_model(slot, parent_offset, bytes, i as int) by {
                assert(now.contains(i));
            }
        }
        complete_slot_gives_block(next, slot, parent_offset, m);
    } else if all_arrived(next) {
        assert forall|i: u32| i <= l implies #[trigger] now.contains(i) by {
            assert(next.data.contains_key(i));
        }
        lemma_holds_up_to(now, l);
    }
}

/// The slot is gathered, and the first `k` of the shreds are there.
pub open spec fn has_first(
    c: CollectorModel,
    slot: u64,
    parent_offset: u16,
    bytes: Seq<u8>,
    shreds: Seq<DataModel>,
    k: int,
) -> bool {
    &&& c.slots.contains_key(slot)
    &&& !c.stored.contains(slot)
    &&& holds_some(
        c.slots[slot],
        slot,
        parent_offset,
        bytes,
        indices_of(shreds).take(k).to_set(),
    )
}

proof fn lemma_header_alone<V: Fn(&MerkleProof, &Vec<u8>, &Digest) -> bool>(
    check: V,
    start: ShredCollector,
    next: ShredCollector,
    h: HeaderModel,
    r: Option<Block>,
    parent_offset: u16,
    bytes: Seq<u8>,
    shreds: Seq<DataModel>,
)
    requires
        !start.model().stored.contains(h.slot),
        !start.model().slots.contains_key(h.slot),
        under_root(check, &start, &next, h, r),
    ensures
        r is None,
        has_first(next.model(), h.slot, parent_offset, bytes, shreds, 0),
{
    let slots = tracking(start.model().slots, start.slot_cap(), h.slot);
    let s = slots[h.slot];
    assert(s == empty_slot());
    let (bad_data, bad_code) = choose|bad_data: Set<u32>, bad_code: Set<u32>|
        #![
            trigger data_judged(check, s.data, h.merkle_root, bad_data),
            code_judged(check, s.code, h.merkle_root, bad_code),
        ]
        data_judged(check, s.data, h.merkle_root, bad_data) && code_judged(
            check,
            s.code,
            h.merkle_root,
            bad_code,
        ) && {
            let entry = under_header(s, h, bad_data, bad_code);
            &&& next.model() == settled(
                start.model(),
                slots,
                h.slot,
                after_assembly(entry),
                assembled(entry),
            )
            &&& r.model() == assembled(entry)
        };
    let entry = under_header(s, h, bad_data, bad_code);
    assert(entry.data =~= Map::<u32, DataModel>::empty());
    assert(entry.code =~= Map::<u32, CodeModel>::empty());
    assert(entry.last is None);
    assert(indices_of(shreds).take(0).to_set() =~= Set::<u32>::empty());
    assert(entry.data.dom() =~= Set::<u32>::empty());
}

/// One more shred is taken in.
proof fn lemma_next_shred(
    was: ShredCollector,
    next: ShredCollector,
    shreds: Seq<DataModel>,
    r: Option<Block>,
    slot: u64,
    parent_offset: u16,
    m: BlockModel,
    k: int,
)
    requires
        <Block as Codec>::fits(m),
        0 <= k < shreds.len() <= was.shred_limit(),
        in_any_order(shreds, slot, parent_offset, <Block as Codec>::layout(m)),
        has_first(was.model(), slot, parent_offset, <Block as Codec>::layout(m), shreds, k),
        data_taken(&was, &next, shreds[k], true, r),
    ensures
        k + 1 < shreds.len() ==> r is None && has_first(
            next.model(),
            slot,
            parent_offset,
            <Block as Codec>::layout(m),
            shreds,
            k + 1,
        ),
        k + 1 == shreds.len() ==> {
            &&& r.model() == Some(m)
            &&& next.model().stored.contains(slot)
            &&& !next.model().slots.contains_key(slot)
        },
{
    let all = indices_of(shreds);
    let seen = all.take(k);
    let index = data_index(shreds[k]);
    assert(data_slot(shreds[k]) == slot);
    seen.unique_seq_to_set();
    assert(!seen.to_set().contains(index)) by {
        if seen.contains(index) {
            let j = choose|j: int| 0 <= j < seen.len() && seen[j] == index;
            assert(all[j] == all[k]);
        }
    }
    lemma_one_more(
        was.model().slots[slot],
        was.shred_limit(),
        slot,
        parent_offset,
        m,
        seen.to_set(),
        shreds[k],
    );
    assert(all.take(k + 1) =~= seen.push(index));
    assert(all.take(k + 1).to_set() =~= seen.to_set().insert(index)) by {
        assert forall|i: u32| seen.push(index).contains(i) == (seen.contains(i) || i == index) by {
            if seen.contains(i) {
                let j = choose|j: int| 0 <= j < seen.len() && seen[j] == i;
                assert(seen.push(index)[j] == i);
            }
            assert(seen.push(index)[k] == index);
        }
    }
}

/// All but the last of the shreds are taken in without a block.
proof fn lemma_first_shreds(
    states: Seq<ShredCollector>,
    shreds: Seq<DataModel>,
    results: Seq<Option<Block>>,
    slot: u64,
    parent_offset: u16,
    m: BlockModel,
    k: int,
)
    requires
        <Block as Codec>::fits(m),
        0 <= k < shreds.len() <= states[0].shred_limit(),
        in_any_order(shreds, slot, parent_offset, <Block as Codec>::layout(m)),
        takes_in(states, shreds, results),
        has_first(states[0].model(), slot, parent_offset, <Block as Codec>::layout(m), shreds, 0),
    ensures
        has_first(states[k].model(), slot, parent_offset, <Block as Codec>::layout(m), shreds, k),
        states[k].shred_limit() == states[0].shred_limit(),
        forall|i: int| 0 <= i < k ==> (#[trigger] results[i]) is None,
    decreases k,
{
    if k > 0 {
        let j = k - 1;
        lemma_first_shreds(states, shreds, results, slot, parent_offset, m, j);
        assert(takes_in_at(states, shreds, results, j));
        lemma_next_shred(
            states[j],
            states[j + 1],
            shreds,
            results[j],
            slot,
            parent_offset,
            m,
            j,
        );
    }
}

/// A header, then all data shreds of a block in any order, give the block at the last of
/// them and nothing before. The slot then counts as stored, and takes in nothing more.
#[verifier::rlimit(40)]
pub proof fn header_then_shreds_give_block<V: Fn(&MerkleProof, &Vec<u8>, &Digest) -> bool>(
    check: V,
    start: ShredCollector,
    h: HeaderModel,
    at_header: Option<Block>,
    states: Seq<ShredCollector>,
    shreds: Seq<DataModel>,
    results: Seq<Option<Block>>,
    parent_offset: u16,
    m: BlockModel,
)
    requires
        <Block as Codec>::fits(m),
        chunk_count(<Block as Codec>::layout(m).len()) <= start.shred_limit(),
        !start.model().stored.contains(h.slot),
        !start.model().slots.contains_key(h.slot),
        in_any_order(shreds, h.slot, parent_offset, <Block as Codec>::layout(m)),
        takes_in(states, shreds, results),
        under_root(check, &start, &states[0], h, at_header),
        states[0].same_limits(&start),
    ensures
        at_header is None,
        results.len() > 0,
        forall|i: int| 0 <= i < results.len() - 1 ==> (#[trigger] results[i]) is None,
        results.last().model() == Some(m),
        states.last().model().stored.contains(h.slot),
        !states.last().model().slots.contains_key(h.slot),
        forall|next: ShredCollector, shred: DataModel, ok: bool, r: Option<Block>|
            data_slot(shred) == h.slot && #[trigger] data_taken(
                &states.last(),
                &next,
                shred,
                ok,
                r,
            ) ==> r is None && next.model() == states.last().model(),
{
    let bytes = <Block as Codec>::layout(m);
    let n = chunk_count(bytes.len());
    lemma_le_bytes_len((m.0).0 as nat, 8);
    assert(bytes.len() > 0);
    assert(n > 0);
    lemma_header_alone(check, start, states[0], h, at_header, parent_offset, bytes, shreds);
    lemma_first_shreds(states, shreds, results, h.slot, parent_offset, m, n - 1);
    let c = states[n - 1];
    assert(takes_in_at(states, shreds, results, n - 1));
    lemma_next_shred(
        c,
        states[n as int],
        shreds,
        results[n - 1],
        h.slot,
        parent_offset,
        m,
        n - 1,
    );
}

/// A shred of either kind.
pub enum Arrival {
    Data(DataModel),
    Code(CodeModel),
}

/// What a slot holds after a shred was inserted: the shred too, if it is admitted, else what
/// it held before.
pub open spec fn after_arrival(s: SlotModel, limit: u32, shred: Arrival) -> SlotModel {
    match shred {
        Arrival::Data(m) => if admits_data(s, limit, m) {
            with_data(s, m)
        } else {
            s
        },
        Arrival::Code(m) => if admits_code(s, limit, m) {
            with_code(s, m)
        } else {
            s
        },
    }
}

/// What a slot holds after shreds were inserted one after the other.
pub open spec fn after_arrivals(limit: u32, shreds: Seq<Arrival>) -> SlotModel
    decreases shreds.len(),
{
    if shreds.len() == 0 {
        empty_slot()
    } else {
        after_arrival(after_arrivals(limit, shreds.drop_last()), limit, shreds.last())
    }
}

/// Data and code shreds share one budget, whatever is inserted in whatever order. Each is
/// held once, under its own index, which is below the limit, and what is held stays: the
/// first one of an index is kept.
pub proof fn shreds_share_one_budget(limit: u32, shreds: Seq<Arrival>)
    ensures
        ({
            let s = after_arrivals(limit, shreds);
            &&& s.data.dom().finite() && s.code.dom().finite()
            &&& buffered(s) <= limit
            &&& forall|k: u32| #[trigger]
                s.data.contains_key(k) ==> k < limit && data_index(s.data[k]) == k
            &&& forall|k: u32| #[trigger]
                s.code.contains_key(k) ==> k < limit && code_index(s.code[k]) == k
        }),
        shreds.len() > 0 ==> {
            let was = after_arrivals(limit, shreds.drop_last());
            let s = after_arrivals(limit, shreds);
            &&& forall|k: u32| #[trigger]
                was.data.contains_key(k) ==> s.data.contains_key(k) && s.data[k] == was.data[k]
            &&& forall|k: u32| #[trigger]
                was.code.contains_key(k) ==> s.code.contains_key(k) && s.code[k] == was.code[k]
        },
    decreases shreds.len(),
{
    let s = after_arrivals(limit, shreds);
    if shreds.len() > 0 {
        shreds_share_one_budget(limit, shreds.drop_last());
        let was = after_arrivals(limit, shreds.drop_last());
        match shreds.last() {
            Arrival::Data(m) => {
                if admits_data(was, limit, m) {
                    assert(s.data.dom() =~= was.data.dom().insert(data_index(m)));
                }
            },
            Arrival::Code(m) => {
                if admits_code(was, limit, m) {
                    assert(s.code.dom() =~= was.code.dom().insert(code_index(m)));
                }
            },
        }
    } else {
        assert(s.data.dom() =~= Set::empty());
        assert(s.code.dom() =~= Set::empty());
    }
}

/// A shred is taken in if it is new, its index is below the limit, fewer shreds than the limit
/// are there, and the header, if it is there, bears it out. It then stands under its index, and
/// everything else stays; only when the data shreds are complete are they taken out.
pub proof fn new_shred_is_taken_in(
    s: SlotModel,
    limit: u32,
    m: DataModel,
    c: CodeModel,
    proof_valid: bool,
)
    requires
        s.data.dom().len() + s.code.dom().len() < limit,
        s.header is None || proof_valid,
    ensures
        data_index(m) < limit && !s.data.contains_key(data_index(m)) ==> {
            let after = receive_data(s, limit, m, proof_valid).0;
            let last = if data_flags(m) & 0x01 != 0 {
                Some(data_index(m))
            } else {
                s.last
            };
            let complete = s.header is Some && last is Some && forall|i: u32|
                i <= last->0 && i != data_index(m) ==> #[trigger] s.data.contains_key(i);
            &&& after.last == last
            &&& after.header == s.header
            &&& after.code == s.code
            &&& after.data == if complete {
                Map::<u32, DataModel>::empty()
            } else {
                s.data.insert(data_index(m), m)
            }
        },
        code_index(c) < limit && !s.code.contains_key(code_index(c)) ==> receive_code(
            s,
            limit,
            c,
            proof_valid,
        ) == (SlotModel { code: s.code.insert(code_index(c), c), ..s }, true),
{
    let entry = with_data(s, m);
    if all_arrived(entry) {
        let last = if data_flags(m) & 0x01 != 0 {
            Some(data_index(m))
        } else {
            s.last
        };
        assert forall|i: u32| i <= last->0 && i != data_index(m) implies #[trigger] s.data.contains_key(
            i,
        ) by {
            assert(entry.data.contains_key(i));
        }
    }
}

/// A code shred that is there already, or for which there is no room, changes nothing, and
/// neither does a shred of either kind that the header does not bear out.
pub proof fn unfit_shred_changes_nothing(
    s: SlotModel,
    limit: u32,
    m: DataModel,
    c: CodeModel,
    proof_valid: bool,
)
    ensures
        s.header is Some && !proof_valid ==> receive_data(s, limit, m, proof_valid) == (
            s,
            None::<BlockModel>,
        ) && receive_code(s, limit, c, proof_valid) == (s, false),
        s.code.contains_key(code_index(c)) || code_index(c) >= limit || s.data.dom().len()
            + s.code.dom().len() >= limit ==> receive_code(s, limit, c, proof_valid) == (s, false),
{
}

/// A slot that is to be gathered is gathered from then on, with nothing yet if it is new. Room
/// is made only if as many slots are gathered as may be, and then it is the earliest one that
/// goes; all others stay as they are.
pub proof fn new_slot_displaces_the_earliest(
    slots: Map<u64, SlotModel>,
    cap: nat,
    slot: u64,
    other: u64,
)
    requires
        slots.dom().finite(),
    ensures
        tracking(slots, cap, slot).contains_key(slot),
        slots.contains_key(slot) ==> tracking(slots, cap, slot) == slots,
        !slots.contains_key(slot) ==> {
            let is = tracking(slots, cap, slot);
            &&& is[slot].data.dom() == Set::<u32>::empty() && is[slot].code.dom() == Set::<
                u32,
            >::empty() && is[slot].header is None && is[slot].last is None
            &&& is.contains_key(other) && other != slot ==> slots.contains_key(other) && is[other]
                == slots[other]
            &&& slots.dom().len() < cap && slots.contains_key(other) ==> is.contains_key(other)
            &&& slots.contains_key(other) && !(is).contains_key(other) ==> forall|k: u64| #[trigger]
                slots.contains_key(k) ==> other <= k && (k != other ==> is.contains_key(k))
            &&& slots.dom().len() <= cap && cap > 0 ==> is.dom().len() <= cap
        },
{
    if !slots.contains_key(slot) {
        let is = tracking(slots, cap, slot);
        let room = with_room(slots, cap);
        assert(is[slot].data.dom() =~= Set::<u32>::empty());
        assert(is[slot].code.dom() =~= Set::<u32>::empty());
        if slots.dom().len() >= cap && slots.dom().len() > 0 {
            let low = lemma_has_earliest(slots.dom());
            lemma_earliest(slots.dom(), low);
            assert(slots.contains_key(low));
            assert(room.dom() =~= slots.dom().remove(low));
        } else if slots.dom().len() == 0 {
            assert(slots.dom() =~= Set::empty());
        }
        assert(is.dom() =~= room.dom().insert(slot));
    }
}

/// Some slots have an earliest one.
proof fn lemma_has_earliest(slots: Set<u64>) -> (low: u64)
    requires
        slots.finite(),
        slots.len() > 0,
    ensures
        slots.contains(low),
        forall|j: u64| slots.contains(j) ==> low <= j,
    decreases slots.len(),
{
    let k = slots.choose();
    let rest = slots.remove(k);
    if rest.len() == 0 {
        assert forall|j: u64| slots.contains(j) implies k <= j by {
            if j != k {
                assert(rest.contains(j));
            }
        }
        k
    } else {
        let low = lemma_has_earliest(rest);
        let r = if k <= low {
            k
        } else {
            low
        };
        assert forall|j: u64| slots.contains(j) implies r <= j by {
            if j != k {
                assert(rest.contains(j));
            }
        }
        r
    }
}

/// A slot is gathered once it was asked for, unless its block is stored or it is known to be
/// empty, and then nothing changes at all.
pub proof fn requested_slot_is_gathered(was: CollectorModel, cap: nat, slot: u64)
    ensures
        was.stored.contains(slot) || was.skipped.contains(slot) ==> repair_requested(was, cap, slot)
            == was,
        !was.stored.contains(slot) && !was.skipped.contains(slot) ==> {
            let is = repair_requested(was, cap, slot);
            &&& is.slots.contains_key(slot)
            &&& was.slots.contains_key(slot) ==> is == was
            &&& is.stored == was.stored
            &&& is.skipped == was.skipped
        },
{
}

/// A slot whose block is stored takes in nothing more, of whatever kind.
pub proof fn stored_slot_takes_in_nothing<V: Fn(&MerkleProof, &Vec<u8>, &Digest) -> bool>(
    check: V,
    was: ShredCollector,
    is: ShredCollector,
    h: HeaderModel,
    m: DataModel,
    c: CodeModel,
    ok: bool,
    block: Option<Block>,
    accepted: bool,
)
    ensures
        was.model().stored.contains(h.slot) && under_root(check, &was, &is, h, block) ==> is.model()
            == was.model() && block is None,
        was.model().stored.contains(data_slot(m)) && data_taken(&was, &is, m, ok, block)
            ==> is.model() == was.model() && block is None,
        was.model().stored.contains(code_slot(c)) && code_taken(&was, &is, c, ok, accepted)
            ==> is.model() == was.model() && !accepted,
{
}

/// A header weeds out what came before it: a shred that the check refuses under its root goes,
/// one that the check bears out stays, and the header is known from then on. With it a block
/// may be complete; then the slot counts as stored.
pub proof fn header_keeps_genuine_shreds<V: Fn(&MerkleProof, &Vec<u8>, &Digest) -> bool>(
    check: V,
    was: ShredCollector,
    is: ShredCollector,
    h: HeaderModel,
    block: Option<Block>,
    i: u32,
)
    requires
        under_root(check, &was, &is, h, block),
        !was.model().stored.contains(h.slot),
        was.model().slots.contains_key(h.slot),
    ensures
        block is Some ==> is.model().stored.contains(h.slot) && !(is).model().slots.contains_key(
            h.slot,
        ),
        block is None ==> {
            let s = was.model().slots[h.slot];
            let after = is.model().slots[h.slot];
            &&& is.model().slots.contains_key(h.slot)
            &&& is.model().stored == was.model().stored
            &&& after.header == Some(h)
            &&& after.data.contains_key(i) ==> s.data.contains_key(i) && after.data[i] == s.data[i]
                && data_verdict(check, s.data[i], h.merkle_root, true)
            &&& after.code.contains_key(i) ==> s.code.contains_key(i) && after.code[i] == s.code[i]
                && code_verdict(check, s.code[i], h.merkle_root, true)
            &&& s.code.contains_key(i) && !code_verdict(check, s.code[i], h.merkle_root, false)
                ==> after.code.contains_key(i)
            &&& s.last is None && s.data.contains_key(i) && !data_verdict(
                check,
                s.data[i],
                h.merkle_root,
                false,
            ) ==> after.data.contains_key(i)
        },
        forall|k: u64| #[trigger]
            was.model().slots.contains_key(k) && k != h.slot ==> is.model().slots.contains_key(k)
                && is.model().slots[k] == was.model().slots[k],
{
    let s = was.model().slots[h.slot];
    let (bad_data, bad_code) = choose|bad_data: Set<u32>, bad_code: Set<u32>| #[trigger]
        data_judged(check, s.data, h.merkle_root, bad_data) && #[trigger] code_judged(
            check,
            s.code,
            h.merkle_root,
            bad_code,
        ) && {
            let entry = under_header(s, h, bad_data, bad_code);
            &&& is.model() == settled(
                was.model(),
                was.model().slots,
                h.slot,
                after_assembly(entry),
                assembled(entry),
            )
            &&& block.model() == assembled(entry)
        };
    let _ = s.data.contains_key(i);
    let _ = s.code.contains_key(i);
}

/// Shreds that came before their header give the block when it comes: if all data shreds of a
/// block wait and the check bears every one of them out, the header completes the block.
pub proof fn header_completes_waiting_shreds<V: Fn(&MerkleProof, &Vec<u8>, &Digest) -> bool>(
    check: V,
    was: ShredCollector,
    is: ShredCollector,
    h: HeaderModel,
    block: Option<Block>,
    parent_offset: u16,
    m: BlockModel,
)
    requires
        under_root(check, &was, &is, h, block),
        !was.model().stored.contains(h.slot),
        was.model().slots.contains_key(h.slot),
        <Block as Codec>::fits(m),
        ({
            let s = was.model().slots[h.slot];
            let n = chunk_count(<Block as Codec>::layout(m).len());
            &&& n <= u32::MAX
            &&& s.last == Some((n - 1) as u32)
            &&& forall|i: u32|
                i < n ==> #[trigger] s.data.contains_key(i) && s.data[i].0 == data_shred_model(
                    h.slot,
                    parent_offset,
                    <Block as Codec>::layout(m),
                    i as int,
                ) && !data_verdict(check, s.data[i], h.merkle_root, false)
        }),
    ensures
        block.model() == Some(m),
        is.model().stored.contains(h.slot),
        !(is).model().slots.contains_key(h.slot),
{
    let s = was.model().slots[h.slot];
    let (bad_data, bad_code) = choose|bad_data: Set<u32>, bad_code: Set<u32>| #[trigger]
        data_judged(check, s.data, h.merkle_root, bad_data) && #[trigger] code_judged(
            check,
            s.code,
            h.merkle_root,
            bad_code,
        ) && {
            let entry = under_header(s, h, bad_data, bad_code);
            &&& is.model() == settled(
                was.model(),
                was.model().slots,
                h.slot,
                after_assembly(entry),
                assembled(entry),
            )
            &&& block.model() == assembled(entry)
        };
    let bytes = <Block as Codec>::layout(m);
    let entry = under_header(s, h, bad_data, bad_code);
    lemma_le_bytes_len((m.0).0 as nat, 8);
    assert(bytes.len() > 0);
    let n = chunk_count(bytes.len());
    assert forall|i: u32| i < n implies #[trigger] entry.data.contains_key(i) && entry.data[i].0
        == data_shred_model(h.slot, parent_offset, bytes, i as int) by {
        assert(s.data.contains_key(i));
    }
    assert(s.data.contains_key((n - 1) as u32));
    complete_slot_gives_block(entry, h.slot, parent_offset, m);
}

/// What is missing of a slot is told in order: every place up to the last shred, once that is
/// known, that no shred is there for. A slot is complete when its header is there, its last shred
/// is known, and nothing is missing.
pub proof fn missing_shreds_are_those_not_there(s: SlotModel, i: u32)
    ensures
        missing_of(s).contains(i) <==> s.last is Some && i <= s.last->0 && !s.data.contains_key(i),
        forall|a: int, b: int|
            0 <= a < b < missing_of(s).len() ==> (#[trigger] missing_of(s)[a])
                < (#[trigger] missing_of(s)[b]),
        all_arrived(s) <==> s.header is Some && s.last is Some && missing_of(s).len() == 0,
{
    if s.last is Some {
        let n = (s.last->0 + 1) as nat;
        missing_is_exact(s.data, n);
        let gaps = missing_below(s.data, n);
        if gaps.len() == 0 {
            assert forall|k: u32| k <= s.last->0 implies #[trigger] s.data.contains_key(k) by {
                assert(!gaps.contains(k));
            }
        } else {
            assert(gaps.contains(gaps[0]));
        }
    }
}

/// A shred touches the slot that it is of, and no other, but for the earliest one that makes room:
/// every other slot that is still gathered is as it was. A slot is stored once its block is given,
/// and by nothing else.
pub proof fn shred_touches_its_slot(
    was: ShredCollector,
    is: ShredCollector,
    m: DataModel,
    c: CodeModel,
    ok: bool,
    block: Option<Block>,
    accepted: bool,
    other: u64,
)
    requires
        was.model().slots.dom().finite(),
    ensures
        data_taken(&was, &is, m, ok, block) ==> {
            &&& other != data_slot(m) && is.model().slots.contains_key(other)
                ==> was.model().slots.contains_key(other) && is.model().slots[other]
                == was.model().slots[other]
            &&& other != data_slot(m) && was.model().slots.contains_key(other)
                && was.model().slots.dom().len() < was.slot_cap()
                ==> is.model().slots.contains_key(other)
            &&& is.model().skipped == was.model().skipped
            &&& is.model().stored == if block is Some {
                was.model().stored.insert(data_slot(m))
            } else {
                was.model().stored
            }
            &&& block is Some ==> !(is).model().slots.contains_key(data_slot(m))
        },
        code_taken(&was, &is, c, ok, accepted) ==> {
            &&& other != code_slot(c) && is.model().slots.contains_key(other)
                ==> was.model().slots.contains_key(other) && is.model().slots[other]
                == was.model().slots[other]
            &&& other != code_slot(c) && was.model().slots.contains_key(other)
                && was.model().slots.dom().len() < was.slot_cap()
                ==> is.model().slots.contains_key(other)
            &&& is.model().skipped == was.model().skipped
            &&& is.model().stored == was.model().stored
        },
{
    let slots = was.model().slots;
    let cap = was.slot_cap();
    new_slot_displaces_the_earliest(slots, cap, data_slot(m), other);
    new_slot_displaces_the_earliest(slots, cap, code_slot(c), other);
}

} // verus!
