//! Asking peers for what has not arrived.
//!
//! Every tick old and empty slots are let go, the slots that are left are put in order of
//! urgency, and for each of them that was not asked for lately requests are drawn up.

use crate::codec::Codec;
use crate::turbine::protocol::{RepairRequest, RepairRequestModel};
use crate::turbine::shred_collector::{
    all_arrived, before, empty_slot, missing_is_exact, missing_of, CollectorModel, ShredCollector, SlotModel,
};
use std::collections::HashMap;
use vstd::prelude::*;
use vstd::slice::{slice_subrange, slice_to_vec};

verus! {

/// Milliseconds between repair ticks.
pub const REPAIR_INTERVAL_MS: u64 = 200;

/// Slots older than this relative to the replay tip are evicted on each tick.
pub const MAX_REPAIR_SLOT_AGE: u64 = 1024;

/// Maximum number of slots to request repairs for per tick.
pub const MAX_REPAIR_SLOTS_PER_TICK: usize = 512;

/// Number of random peers to send each repair request to.
pub const REPAIR_PEER_SAMPLE_SIZE: usize = 2;

/// Minimum time (ms) between repair requests for the same slot.
pub const REPAIR_COOLDOWN_MS: u64 = 1000;

/// Number of random peers to send each repair request to while catching up.
pub const CATCH_UP_PEER_SAMPLE_SIZE: usize = 3;

/// Minimum time (ms) between repair requests for the same slot while catching up.
pub const CATCH_UP_COOLDOWN_MS: u64 = 50;

/// A node whose replay is more than this many slots behind is catching up.
pub const CATCH_UP_LAG: u64 = 128;

/// A slot that is still without shreds after this time (ms) is taken for empty.
pub const EMPTY_SLOT_TIMEOUT_MS: u64 = 1000;

// ---------------------------------------------------------------------------
// Choosing peers
// ---------------------------------------------------------------------------

/// Every one of `chosen` comes from a place of its own in `items`.
pub open spec fn is_sample<T>(items: Seq<T>, chosen: Seq<T>) -> bool {
    exists|at: Seq<int>| #[trigger] drawn_at(items, chosen, at)
}

pub open spec fn drawn_at<T>(items: Seq<T>, chosen: Seq<T>, at: Seq<int>) -> bool {
    &&& at.len() == chosen.len()
    &&& at.no_duplicates()
    &&& forall|i: int|
        0 <= i < at.len() ==> 0 <= #[trigger] at[i] < items.len() && chosen[i] == items[at[i]]
}

/// `IndexedRandom::sample` with the thread's random number generator: as many items as
/// asked for, or all if there are fewer, each from a place of its own. Which ones is left
/// to chance. The generator panics if the system gives it no seed.
#[verifier::external_body]
fn random_sample<T: Copy>(items: &[T], amount: usize) -> (r: Vec<T>)
    ensures
        r@.len() == if amount <= items@.len() {
            amount as nat
        } else {
            items@.len()
        },
        is_sample(items@, r@),
{
    rand::seq::IndexedRandom::sample(items, &mut rand::rng(), amount).copied().collect()
}

/// All the peers, or as many as `count` of them.
pub open spec fn chosen_peers<T>(peers: Seq<T>, count: nat, chosen: Seq<T>) -> bool {
    &&& is_sample(peers, chosen)
    &&& if peers.len() <= count {
        chosen == peers
    } else {
        chosen.len() == count
    }
}

/// Select up to `count` random peers from the list.
pub fn sample_peers<T: Copy>(peers: &[T], count: usize) -> (r: Vec<T>)
    ensures
        chosen_peers(peers@, count as nat, r@),
{
    if peers.len() <= count {
        let r = slice_to_vec(peers);
        proof {
            let at = Seq::new(peers@.len(), |i: int| i);
            assert(drawn_at(peers@, r@, at));
        }
        return r;
    }
    random_sample(peers, count)
}

// ---------------------------------------------------------------------------
// Order of urgency
// ---------------------------------------------------------------------------

/// The more urgent of two slots: the earlier while catching up, else the later.
pub open spec fn more_urgent(catching_up: bool, a: u64, b: u64) -> bool {
    if catching_up {
        a < b
    } else {
        a > b
    }
}

pub open spec fn by_urgency(catching_up: bool, list: Seq<u64>) -> bool {
    forall|i: int, j: int|
        0 <= i < j < list.len() ==> more_urgent(catching_up, #[trigger] list[i], #[trigger] list[j])
}

/// The most urgent of some slots, as many as one tick deals with, in order.
pub open spec fn most_urgent(catching_up: bool, slots: Set<u64>, list: Seq<u64>) -> bool {
    &&& slots.finite()
    &&& by_urgency(catching_up, list)
    &&& list.len() == if slots.len() <= MAX_REPAIR_SLOTS_PER_TICK {
        slots.len()
    } else {
        MAX_REPAIR_SLOTS_PER_TICK as nat
    }
    &&& forall|i: int| 0 <= i < list.len() ==> slots.contains(#[trigger] list[i])
    &&& forall|s: u64, i: int|
        #[trigger] slots.contains(s) && !list.contains(s) && 0 <= i < list.len() ==> more_urgent(
            catching_up,
            #[trigger] list[i],
            s,
        )
}

/// Sorts by urgency.
fn sort_by_urgency(slots: &Vec<u64>, catching_up: bool) -> (r: Vec<u64>)
    requires
        slots@.no_duplicates(),
    ensures
        by_urgency(catching_up, r@),
        r@.len() == slots@.len(),
        r@.to_set() == slots@.to_set(),
{
    let n: usize = slots.len();
    let mut sorted: Vec<u64> = Vec::new();
    let mut i: usize = 0;
    while i < n
        invariant
            i <= n == slots@.len(),
            slots@.no_duplicates(),
            sorted@.len() == i,
            by_urgency(catching_up, sorted@),
            forall|k: int| 0 <= k < i ==> sorted@.contains(#[trigger] slots@[k]),
            forall|k: int|
                0 <= k < i ==> exists|j: int|
                    0 <= j < i && slots@[j] == #[trigger] sorted@[k],
        decreases n - i,
    {
        let s: u64 = slots[i];
        let mut at: usize = i;
        while at > 0 && ((catching_up && s < sorted[at - 1]) || (!catching_up && s > sorted[at - 1]))
            invariant
                at <= i == sorted@.len(),
                forall|k: int| at <= k < i ==> more_urgent(catching_up, s, #[trigger] sorted@[k]),
            decreases at,
        {
            at = at - 1;
        }
        let ghost was = sorted@;
        sorted.insert(at, s);
        proof {
            assert forall|k: int| 0 <= k < i implies #[trigger] was[k] != s by {
                let j = choose|j: int| 0 <= j < i && slots@[j] == was[k];
                assert(slots@[j] != slots@[i as int]);
            }
            assert forall|k: int| 0 <= k < at implies more_urgent(
                catching_up,
                #[trigger] was[k],
                s,
            ) by {
                assert(was[at - 1] != s);
                if k < at - 1 {
                    assert(more_urgent(catching_up, was[k], was[at - 1]));
                }
            }
            assert forall|k: int, l: int| 0 <= k < l < sorted@.len() implies more_urgent(
                catching_up,
                #[trigger] sorted@[k],
                #[trigger] sorted@[l],
            ) by {
                if k < at && l < at {
                    assert(sorted@[k] == was[k] && sorted@[l] == was[l]);
                } else if k < at && l == at {
                    assert(sorted@[k] == was[k]);
                } else if k < at {
                    assert(sorted@[k] == was[k] && sorted@[l] == was[l - 1]);
                } else if k == at {
                    assert(sorted@[l] == was[l - 1]);
                } else {
                    assert(sorted@[k] == was[k - 1] && sorted@[l] == was[l - 1]);
                }
            }
            assert forall|k: int| 0 <= k < i + 1 implies sorted@.contains(#[trigger] slots@[k]) by {
                if k < i {
                    assert(was.contains(slots@[k]));
                    let j = choose|j: int| 0 <= j < was.len() && was[j] == slots@[k];
                    if j < at {
                        assert(sorted@[j] == slots@[k]);
                    } else {
                        assert(sorted@[j + 1] == slots@[k]);
                    }
                } else {
                    assert(sorted@[at as int] == slots@[k]);
                }
            }
            assert forall|k: int| 0 <= k < i + 1 implies exists|j: int|
                0 <= j < i + 1 && slots@[j] == #[trigger] sorted@[k] by {
                if k < at {
                    assert(sorted@[k] == was[k]);
                    let j = choose|j: int| 0 <= j < i && slots@[j] == was[k];
                    assert(slots@[j] == sorted@[k]);
                } else if k == at {
                    assert(slots@[i as int] == sorted@[k]);
                } else {
                    assert(sorted@[k] == was[k - 1]);
                    let j = choose|j: int| 0 <= j < i && slots@[j] == was[k - 1];
                    assert(slots@[j] == sorted@[k]);
                }
            }
        }
        i = i + 1;
    }
    proof {
        assert forall|s: u64| sorted@.to_set().contains(s) == slots@.to_set().contains(s) by {
            if sorted@.contains(s) {
                let k = choose|k: int| 0 <= k < sorted@.len() && sorted@[k] == s;
                let j = choose|j: int| 0 <= j < n && slots@[j] == sorted@[k];
                assert(slots@[j] == s);
            }
            if slots@.contains(s) {
                let k = choose|k: int| 0 <= k < slots@.len() && slots@[k] == s;
                assert(sorted@.contains(slots@[k]));
            }
        }
        assert(sorted@.to_set() =~= slots@.to_set());
    }
    sorted
}

/// The most urgent of the slots, in order.
fn prioritise(slots: &Vec<u64>, catching_up: bool) -> (r: Vec<u64>)
    requires
        slots@.no_duplicates(),
    ensures
        most_urgent(catching_up, slots@.to_set(), r@),
{
    let mut sorted: Vec<u64> = sort_by_urgency(slots, catching_up);
    let ghost all = sorted@;
    proof {
        slots@.unique_seq_to_set();
    }
    sorted.truncate(MAX_REPAIR_SLOTS_PER_TICK);
    proof {
        assert forall|i: int| 0 <= i < sorted@.len() implies slots@.to_set().contains(
            #[trigger] sorted@[i],
        ) by {
            assert(all[i] == sorted@[i]);
            assert(all.to_set().contains(all[i]));
        }
        assert forall|s: u64, i: int|
            #[trigger] slots@.to_set().contains(s) && !sorted@.contains(s) && 0 <= i
                < sorted@.len() implies more_urgent(catching_up, #[trigger] sorted@[i], s) by {
            assert(all.to_set().contains(s));
            let k = choose|k: int| 0 <= k < all.len() && all[k] == s;
            if k < sorted@.len() {
                assert(sorted@[k] == s);
            }
            assert(all[i] == sorted@[i]);
        }
    }
    sorted
}

// ---------------------------------------------------------------------------
// The tick
// ---------------------------------------------------------------------------

/// The node's replay is far behind the current slot.
pub open spec fn is_catching_up(current: u64, replay_tip: u64) -> bool {
    current > replay_tip + CATCH_UP_LAG
}

/// The slots as the collector's own eviction by age leaves them.
pub open spec fn aged(c: CollectorModel, replay_tip: u64) -> CollectorModel {
    let old_slots = before(
        if replay_tip >= MAX_REPAIR_SLOT_AGE {
            (replay_tip - MAX_REPAIR_SLOT_AGE) as u64
        } else {
            0
        },
    );
    CollectorModel {
        slots: c.slots.remove_keys(old_slots),
        stored: c.stored.difference(old_slots),
        skipped: c.skipped.difference(old_slots),
    }
}

/// When a slot was first seen: as noted, or now.
pub open spec fn since(first: Map<u64, u64>, slot: u64, now: u64) -> u64 {
    if first.contains_key(slot) {
        first[slot]
    } else {
        now
    }
}

/// The time between two moments, none if they are out of order.
pub open spec fn elapsed(from: u64, to: u64) -> nat {
    if to >= from {
        (to - from) as nat
    } else {
        0
    }
}

/// A slot without data shreds is given up if replay is past it, or if it has been empty
/// for too long.
pub open spec fn is_stale(
    c: CollectorModel,
    first: Map<u64, u64>,
    replay_tip: u64,
    now: u64,
    slot: u64,
) -> bool {
    &&& c.slots.contains_key(slot)
    &&& c.slots[slot].data.dom().len() == 0
    &&& slot < replay_tip || elapsed(since(first, slot, now), now) >= EMPTY_SLOT_TIMEOUT_MS
}

pub open spec fn stale_slots(
    c: CollectorModel,
    first: Map<u64, u64>,
    replay_tip: u64,
    now: u64,
) -> Set<u64> {
    Set::new(|slot: u64| is_stale(c, first, replay_tip, now, slot))
}

/// The collector without the slots that are given up; those are known to be empty.
pub open spec fn without_stale(c: CollectorModel, stale: Set<u64>) -> CollectorModel {
    CollectorModel {
        slots: c.slots.remove_keys(stale),
        skipped: c.skipped.union(stale),
        ..c
    }
}

/// What repair remembers: when each slot was last asked for, and when it was first seen.
#[verifier::ext_equal]
pub struct RepairModel {
    pub last_repair: Map<u64, u64>,
    pub first_tracked: Map<u64, u64>,
}

/// What is remembered of the slots that are left after a tick's evictions.
pub open spec fn remembered(m: RepairModel, slots: Set<u64>, now: u64) -> RepairModel {
    RepairModel {
        last_repair: m.last_repair.restrict(slots),
        first_tracked: Map::new(
            |slot: u64| slots.contains(slot),
            |slot: u64| since(m.first_tracked, slot, now),
        ),
    }
}

/// The first part of a tick: what it leaves of the collector's slots and of what is
/// remembered, and the slots to ask for.
pub open spec fn ticked(
    was: CollectorModel,
    m: RepairModel,
    current: u64,
    replay_tip: u64,
    now: u64,
    left: CollectorModel,
    kept: RepairModel,
    list: Seq<u64>,
) -> bool {
    let c = aged(was, replay_tip);
    &&& left == without_stale(c, stale_slots(c, m.first_tracked, replay_tip, now))
    &&& kept == remembered(m, left.slots.dom(), now)
    &&& most_urgent(is_catching_up(current, replay_tip), left.slots.dom(), list)
}

/// The time that has to pass before a slot is asked for again.
pub open spec fn cooldown(catching_up: bool) -> u64 {
    if catching_up {
        CATCH_UP_COOLDOWN_MS
    } else {
        REPAIR_COOLDOWN_MS
    }
}

/// The number of peers that each request goes to.
pub open spec fn sample_size(catching_up: bool) -> usize {
    if catching_up {
        CATCH_UP_PEER_SAMPLE_SIZE
    } else {
        REPAIR_PEER_SAMPLE_SIZE
    }
}

/// Requests for several shreds at a time, at most `k` in each.
pub open spec fn batch_requests(slot: u64, indices: Seq<u32>, k: nat) -> Seq<RepairRequestModel>
    decreases indices.len(),
{
    if indices.len() == 0 || k == 0 {
        Seq::empty()
    } else if indices.len() <= k {
        seq![RepairRequestModel::ShredBatch(slot, indices)]
    } else {
        seq![RepairRequestModel::ShredBatch(slot, indices.take(k as int))] + batch_requests(
            slot,
            indices.skip(k as int),
            k,
        )
    }
}

/// What is asked for: the header, if shreds came without it; the missing shreds, if it is
/// known which are missing; else the highest shred, unless everything has arrived.
pub open spec fn wanted(s: SlotModel, slot: u64, k: nat) -> Seq<RepairRequestModel> {
    let header = if s.header is None && s.data.dom().len() > 0 {
        seq![RepairRequestModel::BatchHeader(slot)]
    } else {
        Seq::empty()
    };
    let missing = missing_of(s);
    if missing.len() > 0 {
        header + batch_requests(slot, missing, k)
    } else if s.data.dom().len() > 0 && all_arrived(s) {
        header
    } else {
        header.push(RepairRequestModel::HighestShred(slot))
    }
}

/// Whether the slot counts as asked for now.
pub open spec fn counts_as_asked(s: SlotModel) -> bool {
    missing_of(s).len() > 0 || s.data.dom().len() == 0 || !all_arrived(s)
}

/// It is too soon to ask for the slot again.
pub open spec fn cooling(m: RepairModel, slot: u64, catching_up: bool, now: u64) -> bool {
    m.last_repair.contains_key(slot) && elapsed(m.last_repair[slot], now) < cooldown(catching_up)
}

/// What has arrived of a slot: nothing, if it is not tracked.
pub open spec fn gathered(c: CollectorModel, slot: u64) -> SlotModel {
    if c.slots.contains_key(slot) {
        c.slots[slot]
    } else {
        empty_slot()
    }
}

/// The requests for a slot of which `s` has arrived, at most `k` shreds in each, and what is
/// remembered before and after them.
pub open spec fn asks(
    s: SlotModel,
    slot: u64,
    k: nat,
    catching_up: bool,
    now: u64,
    m: RepairModel,
    after: RepairModel,
    requests: Seq<RepairRequest>,
) -> bool {
    if cooling(m, slot, catching_up, now) {
        requests.len() == 0 && after == m
    } else {
        &&& request_models(requests) == wanted(s, slot, k)
        &&& after == if counts_as_asked(s) {
            RepairModel { last_repair: m.last_repair.insert(slot, now), ..m }
        } else {
            m
        }
    }
}

pub open spec fn request_models(requests: Seq<RepairRequest>) -> Seq<RepairRequestModel> {
    Seq::new(requests.len(), |i: int| requests[i].model())
}

pub struct RepairService {
    last_repair: HashMap<u64, u64>,
    first_tracked: HashMap<u64, u64>,
    max_batch_request: usize,
}

fn time_between(from: u64, to: u64) -> (r: u64)
    ensures
        r == elapsed(from, to),
{
    if to >= from {
        to - from
    } else {
        0
    }
}

impl RepairService {
    pub closed spec fn model(&self) -> RepairModel {
        RepairModel { last_repair: self.last_repair@, first_tracked: self.first_tracked@ }
    }

    /// The most shreds that one request asks for.
    pub closed spec fn batch_limit(&self) -> nat {
        self.max_batch_request as nat
    }

    /// A service that asks for up to `max_batch_request` shreds at a time.
    pub fn new(max_batch_request: usize) -> (r: Self)
        ensures
            r.model() == (RepairModel { last_repair: Map::empty(), first_tracked: Map::empty() }),
            r.batch_limit() == max_batch_request,
    {
        RepairService {
            last_repair: HashMap::new(),
            first_tracked: HashMap::new(),
            max_batch_request,
        }
    }

    /// Whether the node is catching up.
    pub fn catching_up(current: u64, replay_tip: u64) -> (r: bool)
        ensures
            r == is_catching_up(current, replay_tip),
            r == (current - replay_tip > 128),
    {
        current > CATCH_UP_LAG && current - CATCH_UP_LAG > replay_tip
    }

    /// How many peers each request goes to.
    pub fn peer_sample_size(catching_up: bool) -> (r: usize)
        ensures
            r == sample_size(catching_up),
    {
        if catching_up {
            CATCH_UP_PEER_SAMPLE_SIZE
        } else {
            REPAIR_PEER_SAMPLE_SIZE
        }
    }

    /// The first part of a tick: evict slots that are too old, then slots that are empty,
    /// forget about slots that are no longer gathered, and return the slots to ask for, the
    /// most urgent first. `now` is in milliseconds.
    pub fn begin_tick(
        &mut self,
        collector: &mut ShredCollector,
        current: u64,
        replay_tip: u64,
        now: u64,
    ) -> (r: Vec<u64>)
        requires
            old(collector).well_formed(),
        ensures
            final(collector).well_formed(),
            final(collector).same_limits(old(collector)),
            final(self).batch_limit() == old(self).batch_limit(),
            ticked(
                old(collector).model(),
                old(self).model(),
                current,
                replay_tip,
                now,
                final(collector).model(),
                final(self).model(),
                r@,
            ),
            forall|i: int, j: int|
                0 <= i < j < r@.len() ==> if current - replay_tip > 128 {
                    (#[trigger] r@[i]) < (#[trigger] r@[j])
                } else {
                    r@[i] > r@[j]
                },
    {
        let _ = collector.cleanup_old_slots(replay_tip, MAX_REPAIR_SLOT_AGE);
        let ghost c = collector.model();
        assert(c =~= aged(old(collector).model(), replay_tip));
        let watched: Vec<u64> = collector.tracked_slots();
        let ghost first = self.first_tracked@;
        let ghost stale = stale_slots(c, first, replay_tip, now);
        let mut first_tracked: HashMap<u64, u64> = HashMap::new();
        let mut last_repair: HashMap<u64, u64> = HashMap::new();
        let mut slots: Vec<u64> = Vec::new();
        let n: usize = watched.len();
        let mut i: usize = 0;
        let ghost mut gone: Set<u64> = Set::empty();
        assert(without_stale(c, gone) =~= c);
        while i < n
            invariant
                i <= n == watched@.len(),
                watched@.no_duplicates(),
                watched@.to_set() == c.slots.dom(),
                collector.well_formed(),
                collector.same_limits(old(collector)),
                first == self.first_tracked@,
                stale == stale_slots(c, first, replay_tip, now),
                self.last_repair == old(self).last_repair,
                self.max_batch_request == old(self).max_batch_request,
                forall|s: u64| #[trigger]
                    gone.contains(s) == (stale.contains(s) && watched@.take(i as int).contains(s)),
                collector.model() == without_stale(c, gone),
                slots@.no_duplicates(),
                forall|s: u64| #[trigger]
                    slots@.contains(s) == (!stale.contains(s) && watched@.take(i as int).contains(
                        s,
                    )),
                forall|s: u64| #[trigger] first_tracked@.contains_key(s) == slots@.contains(s),
                forall|s: u64| #[trigger]
                    first_tracked@.contains_key(s) ==> first_tracked@[s] == since(first, s, now),
                forall|s: u64| #[trigger]
                    last_repair@.contains_key(s) == (slots@.contains(s)
                        && self.last_repair@.contains_key(s)),
                forall|s: u64| #[trigger]
                    last_repair@.contains_key(s) ==> last_repair@[s] == self.last_repair@[s],
            decreases n - i,
        {
            let slot: u64 = watched[i];
            let ghost seen = watched@.take(i as int);
            let ghost was = slots@;
            proof {
                assert(watched@.take(i + 1) =~= seen.push(slot));
                lemma_push_contains(seen, slot);
                lemma_push_contains(was, slot);
                assert(watched@.to_set().contains(slot));
                assert(c.slots.contains_key(slot));
                assert(!seen.contains(slot)) by {
                    if seen.contains(slot) {
                        let j = choose|j: int| 0 <= j < seen.len() && seen[j] == slot;
                        assert(watched@[j] == watched@[i as int]);
                    }
                }
                assert(!gone.contains(slot));
                assert(!was.contains(slot));
                assert(collector.model().slots[slot] == c.slots[slot]);
            }
            let begun: u64 = match self.first_tracked.get(&slot) {
                Some(t) => *t,
                None => now,
            };
            assert(begun == since(first, slot, now));
            let empty = collector.shred_count(slot) == 0;
            if empty && (slot < replay_tip || time_between(begun, now) >= EMPTY_SLOT_TIMEOUT_MS) {
                assert(stale.contains(slot));
                collector.mark_slot_empty(slot);
                collector.remove_slot(slot);
                proof {
                    gone = gone.insert(slot);
                    assert(collector.model() =~= without_stale(c, gone));
                }
            } else {
                assert(!stale.contains(slot));
                slots.push(slot);
                first_tracked.insert(slot, begun);
                if let Some(t) = self.last_repair.get(&slot) {
                    last_repair.insert(slot, *t);
                }
            }
            i = i + 1;
        }
        proof {
            assert(watched@.take(n as int) =~= watched@);
            assert forall|s: u64| gone.contains(s) == stale.contains(s) by {
                if stale.contains(s) {
                    assert(watched@.to_set().contains(s));
                }
            }
            assert(gone =~= stale);
            let left = without_stale(c, stale);
            assert forall|s: u64| slots@.to_set().contains(s) == left.slots.dom().contains(s) by {
                assert(slots@.contains(s) == slots@.to_set().contains(s));
                assert(watched@.contains(s) == watched@.to_set().contains(s));
            }
            assert(slots@.to_set() =~= left.slots.dom());
            let m = old(self).model();
            assert forall|s: u64| last_repair@.contains_key(s) == m.last_repair.restrict(
                left.slots.dom(),
            ).contains_key(s) by {
                assert(slots@.contains(s) == slots@.to_set().contains(s));
            }
            assert(last_repair@ =~= m.last_repair.restrict(left.slots.dom()));
            assert forall|s: u64| first_tracked@.contains_key(s) == left.slots.dom().contains(s) by {
                assert(slots@.contains(s) == slots@.to_set().contains(s));
            }
            assert(first_tracked@ =~= remembered(m, left.slots.dom(), now).first_tracked);
        }
        self.last_repair = last_repair;
        self.first_tracked = first_tracked;
        prioritise(&slots, RepairService::catching_up(current, replay_tip))
    }

    /// The second part of a tick, for one slot: the requests to send, and the peers to send
    /// them to. Without peers nothing is asked for. `now` is in milliseconds.
    pub fn repair_slot<T: Copy>(
        &mut self,
        collector: &ShredCollector,
        slot: u64,
        peers: &[T],
        catching_up: bool,
        now: u64,
    ) -> (r: (Vec<RepairRequest>, Vec<T>))
        requires
            collector.well_formed(),
            old(self).batch_limit() > 0,
        ensures
            final(self).batch_limit() == old(self).batch_limit(),
            if peers@.len() == 0 {
                r.0@.len() == 0 && r.1@.len() == 0 && final(self).model() == old(self).model()
            } else {
                &&& asks(
                    gathered(collector.model(), slot),
                    slot,
                    old(self).batch_limit(),
                    catching_up,
                    now,
                    old(self).model(),
                    final(self).model(),
                    r.0@,
                )
                &&& chosen_peers(peers@, sample_size(catching_up) as nat, r.1@)
            },
    {
        if peers.len() == 0 {
            return (Vec::new(), Vec::new());
        }
        let requests: Vec<RepairRequest> = self.requests_for_slot(
            collector,
            slot,
            catching_up,
            now,
        );
        (requests, sample_peers(peers, RepairService::peer_sample_size(catching_up)))
    }

    /// The requests for one slot. None while the slot was asked for a short while ago. `now`
    /// is in milliseconds.
    pub fn requests_for_slot(
        &mut self,
        collector: &ShredCollector,
        slot: u64,
        catching_up: bool,
        now: u64,
    ) -> (r: Vec<RepairRequest>)
        requires
            collector.well_formed(),
            old(self).batch_limit() > 0,
        ensures
            final(self).batch_limit() == old(self).batch_limit(),
            asks(
                gathered(collector.model(), slot),
                slot,
                old(self).batch_limit(),
                catching_up,
                now,
                old(self).model(),
                final(self).model(),
                r@,
            ),
    {
        let mut requests: Vec<RepairRequest> = Vec::new();
        if let Some(last) = self.last_repair.get(&slot) {
            let pause: u64 = if catching_up {
                CATCH_UP_COOLDOWN_MS
            } else {
                REPAIR_COOLDOWN_MS
            };
            if time_between(*last, now) < pause {
                return requests;
            }
        }
        let ghost s = gathered(collector.model(), slot);
        let count: usize = collector.shred_count(slot);
        if !collector.has_header(slot) && count > 0 {
            requests.push(RepairRequest::BatchHeader { slot });
        }
        let ghost header = request_models(requests@);
        proof {
            assert(header =~= if s.header is None && s.data.dom().len() > 0 {
                seq![RepairRequestModel::BatchHeader(slot)]
            } else {
                Seq::empty()
            });
        }
        let missing: Vec<u32> = collector.missing_shreds(slot);
        if missing.len() == 0 {
            if count > 0 && collector.is_slot_complete(slot) {
                return requests;
            }
            requests.push(RepairRequest::HighestShred { slot });
            assert(request_models(requests@) =~= header.push(
                RepairRequestModel::HighestShred(slot),
            ));
        } else {
            push_batches(&mut requests, slot, missing.as_slice(), self.max_batch_request);
        }
        self.last_repair.insert(slot, now);
        requests
    }
}

/// Appends requests for the given shreds, at most `k` in each.
fn push_batches(requests: &mut Vec<RepairRequest>, slot: u64, indices: &[u32], k: usize)
    requires
        k > 0,
    ensures
        request_models(final(requests)@) == request_models(old(requests)@) + batch_requests(
            slot,
            indices@,
            k as nat,
        ),
{
    let ghost start = request_models(requests@);
    let ghost all = batch_requests(slot, indices@, k as nat);
    let mut rest: &[u32] = indices;
    assert(start + all =~= request_models(requests@) + batch_requests(slot, rest@, k as nat));
    while rest.len() > 0
        invariant
            k > 0,
            start + all == request_models(requests@) + batch_requests(slot, rest@, k as nat),
        decreases rest@.len(),
    {
        let len: usize = rest.len();
        let end: usize = if len <= k {
            len
        } else {
            k
        };
        let ghost was = request_models(requests@);
        let ghost todo = rest@;
        let part: Vec<u32> = slice_to_vec(slice_subrange(rest, 0, end));
        let request = RepairRequest::ShredBatch { slot, indices: part };
        requests.push(request);
        rest = slice_subrange(rest, end, len);
        proof {
            assert(request_models(requests@) =~= was.push(request.model()));
            assert(rest@ =~= todo.skip(end as int));
            if len <= k {
                assert(part@ =~= todo);
                assert(batch_requests(slot, rest@, k as nat) =~= Seq::empty());
            } else {
                assert(part@ =~= todo.take(k as int));
            }
            assert(request_models(requests@) + batch_requests(slot, rest@, k as nat) =~= was
                + batch_requests(slot, todo, k as nat));
        }
    }
    assert(batch_requests(slot, rest@, k as nat) =~= Seq::empty());
    assert(request_models(requests@) + Seq::<RepairRequestModel>::empty() =~= request_models(
        requests@,
    ));
}

proof fn lemma_push_contains(s: Seq<u64>, x: u64)
    ensures
        forall|y: u64| #[trigger] s.push(x).contains(y) == (s.contains(y) || y == x),
{
    assert forall|y: u64| #[trigger] s.push(x).contains(y) == (s.contains(y) || y == x) by {
        if s.contains(y) {
            let j = choose|j: int| 0 <= j < s.len() && s[j] == y;
            assert(s.push(x)[j] == y);
        }
        if y == x {
            assert(s.push(x)[s.len() as int] == y);
        }
    }
}

/// The indices that batch requests ask for, one request behind the other.
pub open spec fn asked(requests: Seq<RepairRequestModel>) -> Seq<u32>
    decreases requests.len(),
{
    if requests.len() == 0 {
        Seq::empty()
    } else {
        (match requests[0] {
            RepairRequestModel::ShredBatch(_, indices) => indices,
            _ => Seq::empty(),
        }) + asked(requests.drop_first())
    }
}

/// Every missing shred is asked for once, in order, and no request asks for more than it
/// may.
pub proof fn batches_ask_for_all(slot: u64, indices: Seq<u32>, k: nat)
    requires
        k > 0,
    ensures
        asked(batch_requests(slot, indices, k)) == indices,
        forall|i: int|
            0 <= i < batch_requests(slot, indices, k).len() ==> {
                let q = #[trigger] batch_requests(slot, indices, k)[i];
                q matches RepairRequestModel::ShredBatch(s, part) && s == slot && 0 < part.len()
                    <= k
            },
    decreases indices.len(),
{
    let all = batch_requests(slot, indices, k);
    if indices.len() > k {
        let rest = indices.skip(k as int);
        batches_ask_for_all(slot, rest, k);
        assert(all.drop_first() =~= batch_requests(slot, rest, k));
        assert(indices.take(k as int) + rest =~= indices);
        assert forall|i: int| 0 <= i < all.len() implies {
            let q = #[trigger] all[i];
            q matches RepairRequestModel::ShredBatch(s, part) && s == slot && 0 < part.len() <= k
        } by {
            if i > 0 {
                assert(all[i] == batch_requests(slot, rest, k)[i - 1]);
            }
        }
    } else if indices.len() > 0 {
        assert(all.drop_first() =~= Seq::empty());
        assert(asked(all.drop_first()) =~= Seq::empty());
        assert(asked(all) =~= indices);
    } else {
        assert(asked(all) =~= indices);
    }
}

/// A node that lags by more than 128 slots asks for the earliest slots first, any other for
/// the latest first. Only tracked slots are listed, each once. All of them are, unless that
/// would be more than 512: then those that are left out come behind all that are listed.
pub proof fn tick_lists_slots_by_lag(
    was: CollectorModel,
    m: RepairModel,
    current: u64,
    replay_tip: u64,
    now: u64,
    left: CollectorModel,
    kept: RepairModel,
    list: Seq<u64>,
)
    requires
        ticked(was, m, current, replay_tip, now, left, kept, list),
    ensures
        current <= replay_tip + 128 ==> forall|i: int, j: int|
            0 <= i < j < list.len() ==> (#[trigger] list[i]) > (#[trigger] list[j]),
        current > replay_tip + 128 ==> forall|i: int, j: int|
            0 <= i < j < list.len() ==> (#[trigger] list[i]) < (#[trigger] list[j]),
        list.len() <= 512,
        forall|i: int| 0 <= i < list.len() ==> left.slots.contains_key(#[trigger] list[i]),
        forall|slot: u64| #[trigger]
            left.slots.contains_key(slot) && !list.contains(slot) ==> list.len() == 512,
        forall|slot: u64, i: int|
            #[trigger] left.slots.contains_key(slot) && !list.contains(slot) && 0 <= i < list.len()
                ==> if current <= replay_tip + 128 {
                #[trigger] list[i] > slot
            } else {
                list[i] < slot
            },
{
    let slots = left.slots.dom();
    assert forall|slot: u64| #[trigger]
        left.slots.contains_key(slot) && !list.contains(slot) implies list.len() == 512 by {
        assert(list.no_duplicates());
        list.unique_seq_to_set();
        assert(list.to_set().subset_of(slots.remove(slot))) by {
            assert forall|s: u64| list.to_set().contains(s) implies slots.remove(slot).contains(
                s,
            ) by {
                let i = choose|i: int| 0 <= i < list.len() && list[i] == s;
                assert(slots.contains(list[i]));
            }
        }
        vstd::set_lib::lemma_len_subset(list.to_set(), slots.remove(slot));
    }
    assert forall|slot: u64, i: int|
        #[trigger] left.slots.contains_key(slot) && !list.contains(slot) && 0 <= i
            < list.len() implies if current <= replay_tip + 128 {
        #[trigger] list[i] > slot
    } else {
        list[i] < slot
    } by {
        assert(slots.contains(slot));
    }
}

/// What a tick lets go of. Everything that is more than 1024 slots behind the replay tip is
/// forgotten. Of the other slots those of which a data shred has arrived stay as they are. One
/// without data shreds is dropped, and held to be empty from then on, if replay is past it or
/// it was first seen a second ago or more; else it stays as it is.
pub proof fn tick_drops_old_and_empty_slots(
    was: CollectorModel,
    m: RepairModel,
    current: u64,
    replay_tip: u64,
    now: u64,
    left: CollectorModel,
    kept: RepairModel,
    list: Seq<u64>,
    slot: u64,
)
    requires
        ticked(was, m, current, replay_tip, now, left, kept, list),
    ensures
        slot + 1024 < replay_tip ==> !left.slots.contains_key(slot) && !left.stored.contains(slot)
            && !left.skipped.contains(slot),
        slot + 1024 >= replay_tip ==> {
            let has_data = was.slots[slot].data.dom().len() > 0;
            let seen_for = if m.first_tracked.contains_key(slot) {
                now - m.first_tracked[slot]
            } else {
                0
            };
            let dropped = was.slots.contains_key(slot) && !has_data && (slot < replay_tip
                || seen_for >= 1000);
            &&& left.slots.contains_key(slot) == (was.slots.contains_key(slot) && !dropped)
            &&& left.slots.contains_key(slot) ==> left.slots[slot] == was.slots[slot]
            &&& left.stored.contains(slot) == was.stored.contains(slot)
            &&& left.skipped.contains(slot) == (was.skipped.contains(slot) || dropped)
        },
{
}

/// What is remembered after a tick is of the slots that are still tracked: when each was first
/// seen, which is now for one that is new, and when it was last asked for.
pub proof fn tick_remembers_tracked_slots(
    was: CollectorModel,
    m: RepairModel,
    current: u64,
    replay_tip: u64,
    now: u64,
    left: CollectorModel,
    kept: RepairModel,
    list: Seq<u64>,
    slot: u64,
)
    requires
        ticked(was, m, current, replay_tip, now, left, kept, list),
    ensures
        kept.first_tracked.contains_key(slot) == left.slots.contains_key(slot),
        left.slots.contains_key(slot) ==> kept.first_tracked[slot] == if m.first_tracked.contains_key(
            slot,
        ) {
            m.first_tracked[slot]
        } else {
            now
        },
        kept.last_repair.contains_key(slot) == (left.slots.contains_key(slot)
            && m.last_repair.contains_key(slot)),
        kept.last_repair.contains_key(slot) ==> kept.last_repair[slot] == m.last_repair[slot],
{
}

/// An empty slot that replay has not come to is dropped a second after the tick that first saw
/// it.
pub proof fn empty_slot_is_dropped_after_a_second(
    was: CollectorModel,
    m: RepairModel,
    current: u64,
    replay_tip: u64,
    now: u64,
    left: CollectorModel,
    kept: RepairModel,
    list: Seq<u64>,
    again: CollectorModel,
    later_current: u64,
    later_tip: u64,
    later: u64,
    end: CollectorModel,
    end_kept: RepairModel,
    end_list: Seq<u64>,
    slot: u64,
)
    requires
        ticked(was, m, current, replay_tip, now, left, kept, list),
        !m.first_tracked.contains_key(slot),
        left.slots.contains_key(slot),
        ticked(again, kept, later_current, later_tip, later, end, end_kept, end_list),
        again.slots.contains_key(slot),
        again.slots[slot].data.dom().len() == 0,
        slot >= later_tip,
    ensures
        end.slots.contains_key(slot) == (later - now < 1000),
        !end.slots.contains_key(slot) ==> end.skipped.contains(slot),
{
}

proof fn lemma_batches_only(slot: u64, indices: Seq<u32>, k: nat, q: RepairRequestModel)
    requires
        k > 0,
        batch_requests(slot, indices, k).contains(q),
    ensures
        q matches RepairRequestModel::ShredBatch(s, part) && s == slot && 0 < part.len() <= k,
{
    batches_ask_for_all(slot, indices, k);
}

/// A request for other things than shreds asks for no shreds.
proof fn lemma_asked_around(header: Seq<RepairRequestModel>, rest: Seq<RepairRequestModel>)
    requires
        forall|i: int| 0 <= i < header.len() ==> !(#[trigger] header[i] is ShredBatch),
        header.len() <= 1,
    ensures
        asked(header + rest) == asked(rest),
{
    if header.len() == 0 {
        assert(header + rest =~= rest);
    } else {
        assert((header + rest).drop_first() =~= rest);
        assert((header + rest)[0] == header[0]);
        assert(asked(header + rest) =~= asked(rest));
    }
}

/// What is asked for of a slot. Nothing, if it was asked for less than a second ago, or less
/// than 50 milliseconds ago while catching up. Else every shred up to the last one that has
/// not arrived, once and in order, in batches of at most `k`; the header, if data shreds are
/// there without it; and the highest shred, if none is known to be missing and yet the slot
/// is not complete. The moment is noted unless it was for the header alone or nothing.
pub proof fn slot_is_asked_for_what_it_lacks(
    s: SlotModel,
    slot: u64,
    k: nat,
    catching_up: bool,
    now: u64,
    m: RepairModel,
    after: RepairModel,
    requests: Seq<RepairRequest>,
)
    requires
        k > 0,
        asks(s, slot, k, catching_up, now, m, after, requests),
    ensures
        ({
            let pause = if catching_up {
                50int
            } else {
                1000int
            };
            let early = m.last_repair.contains_key(slot) && now - m.last_repair[slot] < pause;
            let all = request_models(requests);
            let lacks = |i: u32| s.last is Some && i <= s.last->0 && !s.data.contains_key(i);
            let none_lacking = forall|i: u32| !#[trigger] lacks(i);
            let complete = none_lacking && s.last is Some && s.header is Some && s.data.dom().len()
                > 0;
            &&& early ==> requests.len() == 0 && after == m
            &&& !early ==> {
                &&& forall|i: int, j: int|
                    0 <= i < j < asked(all).len() ==> (#[trigger] asked(all)[i])
                        < (#[trigger] asked(all)[j])
                &&& forall|i: u32| #[trigger] asked(all).contains(i) <==> lacks(i)
                &&& all.contains(RepairRequestModel::BatchHeader(slot)) <==> s.header is None
                    && s.data.dom().len() > 0
                &&& all.contains(RepairRequestModel::HighestShred(slot)) <==> none_lacking
                    && !complete
                &&& forall|q: RepairRequestModel| #[trigger]
                    all.contains(q) ==> q == RepairRequestModel::BatchHeader(slot) || q
                        == RepairRequestModel::HighestShred(slot) || (
                    q matches RepairRequestModel::ShredBatch(of, part) && of == slot && 0
                        < part.len() <= k)
                &&& after.first_tracked == m.first_tracked
                &&& after.last_repair == if complete {
                    m.last_repair
                } else {
                    m.last_repair.insert(slot, now)
                }
            }
        }),
{
    let all = request_models(requests);
    let missing = missing_of(s);
    let lacks = |i: u32| s.last is Some && i <= s.last->0 && !s.data.contains_key(i);
    let header = if s.header is None && s.data.dom().len() > 0 {
        seq![RepairRequestModel::BatchHeader(slot)]
    } else {
        Seq::empty()
    };
    if s.last is Some {
        missing_is_exact(s.data, (s.last->0 + 1) as nat);
    }
    assert forall|i: u32| #[trigger] missing.contains(i) <==> lacks(i) by {}
    if !cooling(m, slot, catching_up, now) {
        if missing.len() > 0 {
            assert(missing.contains(missing[0]));
            assert(lacks(missing[0]));
            let rest = batch_requests(slot, missing, k);
            batches_ask_for_all(slot, missing, k);
            lemma_asked_around(header, rest);
            assert forall|q: RepairRequestModel| #[trigger] all.contains(q) implies header.contains(q)
                || rest.contains(q) by {
                let i = choose|i: int| 0 <= i < all.len() && all[i] == q;
                if i < header.len() {
                    assert(header[i] == q);
                } else {
                    assert(rest[i - header.len()] == q);
                }
            }
            assert forall|q: RepairRequestModel| #[trigger] rest.contains(q) implies (
            q matches RepairRequestModel::ShredBatch(of, part) && of == slot && 0 < part.len()
                <= k) by {
                lemma_batches_only(slot, missing, k, q);
            }
            if header.len() > 0 {
                assert(all[0] == header[0]);
            }
        } else {
            assert forall|i: u32| !#[trigger] lacks(i) by {
                assert(missing.contains(i) <==> lacks(i));
            }
            if s.last is Some {
                assert forall|i: u32| i <= s.last->0 implies #[trigger] s.data.contains_key(i) by {
                    assert(!lacks(i));
                }
            }
            let rest = if s.data.dom().len() > 0 && all_arrived(s) {
                Seq::empty()
            } else {
                seq![RepairRequestModel::HighestShred(slot)]
            };
            assert(all =~= header + rest);
            lemma_asked_around(header, rest);
            assert(asked(rest) =~= Seq::empty()) by {
                if rest.len() > 0 {
                    assert(rest.drop_first() =~= Seq::empty());
                    assert(asked(rest.drop_first()) =~= Seq::empty());
                }
            }
            assert forall|q: RepairRequestModel| #[trigger] all.contains(q) implies header.contains(q)
                || rest.contains(q) by {
                let i = choose|i: int| 0 <= i < all.len() && all[i] == q;
                if i < header.len() {
                    assert(header[i] == q);
                } else {
                    assert(rest[i - header.len()] == q);
                }
            }
            if header.len() > 0 {
                assert(all[0] == header[0]);
            }
            if rest.len() > 0 {
                assert(all[header.len() as int] == rest[0]);
            }
        }
    }
}

/// A request goes to three peers while catching up, else to two, or to all if there are no
/// more; each is one of the peers, and none is drawn twice.
pub proof fn requests_go_to_a_few_peers<T>(peers: Seq<T>, catching_up: bool, chosen: Seq<T>)
    requires
        chosen_peers(peers, sample_size(catching_up) as nat, chosen),
    ensures
        ({
            let most = if catching_up {
                3nat
            } else {
                2nat
            };
            &&& peers.len() <= most ==> chosen == peers
            &&& peers.len() > most ==> chosen.len() == most
            &&& exists|at: Seq<int>|
                {
                    &&& at.len() == chosen.len()
                    &&& #[trigger] at.no_duplicates()
                    &&& forall|i: int|
                        0 <= i < at.len() ==> 0 <= #[trigger] at[i] < peers.len() && chosen[i]
                            == peers[at[i]]
                }
        }),
{
    let at = choose|at: Seq<int>| #[trigger] drawn_at(peers, chosen, at);
    assert(at.no_duplicates());
}

} // verus!
