//! Passing on what arrives, once it is known to be genuine.
//!
//! A shred goes further only if its Merkle proof verifies against the root of a header
//! whose signature verified. What comes before its header is kept, not passed on.

use crate::codec::Codec;
use crate::digest::Digest;
use crate::ledger::Block;
use crate::merkle::MerkleProof;
use crate::net::PeerAddr;
use crate::turbine::deshredder::BlockModel;
use crate::turbine::merkle_shred::{checks_all, MerkleShred, ShredBatchHeader};
use crate::turbine::shred_collector::{
    empty_slot, header_known, receive_code, receive_data, settled, tracking, under_root,
    CollectorModel, ShredCollector,
};
use crate::turbine::turbine_tree::{
    lemma_place, peers, peers_are_a_run_of_the_order, place, shreds_only_move_down, TurbineTree,
};
use std::collections::HashMap;
use vstd::prelude::*;
use vstd::slice::slice_to_vec;

verus! {

/// Shreds older than this many slots behind the replay tip are not retransmitted.
pub const RETRANSMIT_SLOT_HORIZON: u64 = 1024;

/// Why a message is passed over before anything is verified.
#[derive(Clone, Copy, Debug, PartialEq, Eq, Structural)]
pub enum Skip {
    /// The slot's block is stored.
    Stored,
    /// The slot is far behind the replay tip.
    Stale,
}

/// What is known of a header's signature.
#[derive(Clone, Copy, Debug, PartialEq, Eq, Structural)]
pub enum Signer {
    /// No public key is known for the leader.
    Unknown,
    /// The signature does not verify.
    Forged,
    /// The signature verifies.
    Genuine,
}

/// What became of a header.
#[derive(Debug, PartialEq, Eq)]
pub enum HeaderOutcome {
    Skipped(Skip),
    UnknownLeader,
    InvalidSignature,
    /// Taken in, to be passed on; the block, if it is complete with it.
    Accepted(Option<Block>),
}

/// What became of a shred.
#[derive(Debug, PartialEq, Eq)]
pub enum ShredOutcome {
    Skipped(Skip),
    /// Kept until its header arrives, and not passed on.
    Deferred,
    InvalidProof,
    /// Taken in, to be passed on; the block, if it is complete with it.
    Accepted(Option<Block>),
}

/// Whether a slot's messages are passed over.
pub open spec fn skip_of(c: CollectorModel, replay_tip: u64, slot: u64) -> Option<Skip> {
    if c.stored.contains(slot) {
        Some(Skip::Stored)
    } else if replay_tip > RETRANSMIT_SLOT_HORIZON && slot < replay_tip - RETRANSMIT_SLOT_HORIZON {
        Some(Skip::Stale)
    } else {
        None
    }
}

/// What the check says of an arriving shred, if it is known which root it has to verify
/// against.
pub open spec fn arriving<V: Fn(&MerkleProof, &Vec<u8>, &Digest) -> bool>(
    check: V,
    c: CollectorModel,
    shred: MerkleShred,
    ok: bool,
) -> bool {
    header_known(c, shred.slot_of()) ==> shred.verdict(
        check,
        (c.slots[shred.slot_of()].header->0).merkle_root,
        ok,
    )
}

/// What the collector is after a shred was given to it, and what block came of it.
pub open spec fn after_shred(
    c: CollectorModel,
    cap: nat,
    limit: u32,
    shred: MerkleShred,
    proof_valid: bool,
) -> (CollectorModel, Option<BlockModel>) {
    let slot = shred.slot_of();
    let slots = tracking(c.slots, cap, slot);
    match shred {
        MerkleShred::Data(d) => {
            let (entry, block) = receive_data(slots[slot], limit, d.model(), proof_valid);
            (settled(c, slots, slot, entry, block), block)
        },
        MerkleShred::Code(d) => {
            let (entry, _) = receive_code(slots[slot], limit, d.model(), proof_valid);
            (CollectorModel { slots: slots.insert(slot, entry), ..c }, None)
        },
    }
}

/// What becomes of a shred, given whether its proof verifies.
pub open spec fn shred_taken(
    was: &ShredCollector,
    is: &ShredCollector,
    shred: MerkleShred,
    replay_tip: u64,
    proof_valid: bool,
    r: ShredOutcome,
) -> bool {
    let c = was.model();
    let slot = shred.slot_of();
    let (after, block) = after_shred(c, was.slot_cap(), was.shred_limit(), shred, proof_valid);
    match skip_of(c, replay_tip, slot) {
        Some(why) => r == ShredOutcome::Skipped(why) && is.model() == c,
        None => if !header_known(c, slot) {
            r == ShredOutcome::Deferred && is.model() == after
        } else if !proof_valid {
            r == ShredOutcome::InvalidProof && is.model() == c
        } else {
            &&& r matches ShredOutcome::Accepted(b) && b.model() == block
            &&& is.model() == after
        },
    }
}

pub struct RetransmitStage {
    my_identity: Digest,
    /// Whom the shreds of a slot go to.
    peer_cache: HashMap<u64, Vec<PeerAddr>>,
}

impl RetransmitStage {
    pub closed spec fn identity(&self) -> Digest {
        self.my_identity
    }

    /// The addresses that are remembered, by slot.
    pub closed spec fn cache(&self) -> Map<u64, Seq<PeerAddr>> {
        self.peer_cache@.map_values(|v: Vec<PeerAddr>| v@)
    }

    pub fn new(my_identity: Digest) -> (r: Self)
        ensures
            r.identity() == my_identity,
            r.cache() == Map::<u64, Seq<PeerAddr>>::empty(),
    {
        let r = RetransmitStage { my_identity, peer_cache: HashMap::new() };
        assert(r.cache() =~= Map::<u64, Seq<PeerAddr>>::empty());
        r
    }

    /// Whether a message of this slot is passed over without further ado.
    pub fn skip(collector: &ShredCollector, replay_tip: u64, slot: u64) -> (r: Option<Skip>)
        ensures
            r == skip_of(collector.model(), replay_tip, slot),
    {
        if collector.is_slot_stored(slot) {
            return Some(Skip::Stored);
        }
        if replay_tip > RETRANSMIT_SLOT_HORIZON && slot < replay_tip - RETRANSMIT_SLOT_HORIZON {
            return Some(Skip::Stale);
        }
        None
    }

    /// A header arrives: unless its slot is passed over, `signer` says whether its signature
    /// verifies, and if so it is taken in, with `check` for the proofs of the shreds that
    /// came before it.
    pub fn on_header<
        G: FnOnce(&ShredBatchHeader) -> Signer,
        V: Fn(&MerkleProof, &Vec<u8>, &Digest) -> bool + Copy,
    >(
        collector: &mut ShredCollector,
        header: &ShredBatchHeader,
        replay_tip: u64,
        signer: G,
        check: V,
    ) -> (r: HeaderOutcome)
        requires
            old(collector).well_formed(),
            signer.requires((header,)),
            checks_all(check),
        ensures
            final(collector).well_formed(),
            final(collector).same_limits(old(collector)),
            ({
                let c = old(collector).model();
                let next = final(collector).model();
                match skip_of(c, replay_tip, header.slot) {
                    Some(why) => r == HeaderOutcome::Skipped(why) && next == c,
                    None => exists|by: Signer| #[trigger]
                        signer.ensures((header,), by) && match by {
                            Signer::Unknown => r == HeaderOutcome::UnknownLeader && next == c,
                            Signer::Forged => r == HeaderOutcome::InvalidSignature && next == c,
                            Signer::Genuine => (r matches HeaderOutcome::Accepted(block)
                                && under_root(
                                check,
                                old(collector),
                                final(collector),
                                header.model(),
                                block,
                            )),
                        },
                }
            }),
    {
        if let Some(why) = Self::skip(collector, replay_tip, header.slot) {
            return HeaderOutcome::Skipped(why);
        }
        match signer(header) {
            Signer::Unknown => HeaderOutcome::UnknownLeader,
            Signer::Forged => HeaderOutcome::InvalidSignature,
            Signer::Genuine => HeaderOutcome::Accepted(
                collector.insert_header(header.clone(), check),
            ),
        }
    }

    /// A shred arrives: unless its slot is passed over, `check` says whether its proof
    /// verifies against the root of its slot's header, if that is there.
    pub fn on_shred<V: Fn(&MerkleProof, &Vec<u8>, &Digest) -> bool>(
        collector: &mut ShredCollector,
        shred: &MerkleShred,
        replay_tip: u64,
        check: V,
    ) -> (r: ShredOutcome)
        requires
            old(collector).well_formed(),
            shred.well_formed(),
            checks_all(check),
        ensures
            final(collector).well_formed(),
            final(collector).same_limits(old(collector)),
            match skip_of(old(collector).model(), replay_tip, shred.slot_of()) {
                Some(why) => r == ShredOutcome::Skipped(why) && final(collector).model() == old(
                    collector,
                ).model(),
                None => exists|ok: bool| #[trigger]
                    arriving(check, old(collector).model(), *shred, ok) && shred_taken(
                        old(collector),
                        final(collector),
                        *shred,
                        replay_tip,
                        ok,
                        r,
                    ),
            },
    {
        let slot: u64 = shred.slot();
        if let Some(why) = Self::skip(collector, replay_tip, slot) {
            return ShredOutcome::Skipped(why);
        }
        let ok = match collector.get_merkle_root(slot) {
            Some(root) => shred.verify(&root, check),
            None => false,
        };
        assert(arriving(check, collector.model(), *shred, ok));
        Self::admit_shred(collector, shred, replay_tip, ok)
    }

    /// A shred arrives of which `proof_valid` says whether its proof verifies against the
    /// root of its slot's header, if that is there.
    pub fn admit_shred(
        collector: &mut ShredCollector,
        shred: &MerkleShred,
        replay_tip: u64,
        proof_valid: bool,
    ) -> (r: ShredOutcome)
        requires
            old(collector).well_formed(),
            shred.well_formed(),
        ensures
            final(collector).well_formed(),
            final(collector).same_limits(old(collector)),
            shred_taken(old(collector), final(collector), *shred, replay_tip, proof_valid, r),
    {
        let slot: u64 = shred.slot();
        if let Some(why) = Self::skip(collector, replay_tip, slot) {
            return ShredOutcome::Skipped(why);
        }
        let known = collector.has_header(slot);
        if known && !proof_valid {
            return ShredOutcome::InvalidProof;
        }
        let block: Option<Block> = match shred {
            MerkleShred::Data(d) => collector.admit_data_shred(d, proof_valid),
            MerkleShred::Code(d) => {
                let _ = collector.admit_code_shred(d, proof_valid);
                None
            },
        };
        if known {
            ShredOutcome::Accepted(block)
        } else {
            ShredOutcome::Deferred
        }
    }

    /// Look up, or find and remember, the addresses of the nodes that this node passes a
    /// slot's messages on to: those of its place in the slot's tree that have one.
    pub fn get_peer_addrs<
        T: FnOnce(u64) -> Option<TurbineTree>,
        A: Fn(&Digest) -> Option<PeerAddr>,
    >(&mut self, slot: u64, tree_provider: T, addr_lookup: A) -> (r: Vec<PeerAddr>)
        requires
            tree_provider.requires((slot,)),
            forall|tree: TurbineTree| #[trigger]
                tree_provider.ensures((slot,), Some(tree)) ==> tree.width() > 0
                    || old(self).identity() == tree.root() || place(
                    tree.order(),
                    old(self).identity(),
                ) is None,
            forall|id: Digest| #[trigger] addr_lookup.requires((&id,)),
        ensures
            final(self).identity() == old(self).identity(),
            if old(self).cache().contains_key(slot) {
                r@ == old(self).cache()[slot] && final(self).cache() == old(self).cache()
            } else {
                &&& exists|tree: Option<TurbineTree>| #[trigger]
                    tree_provider.ensures((slot,), tree) && looked_up(
                        addr_lookup,
                        downstream(tree, old(self).identity()),
                        r@,
                    )
                &&& final(self).cache() == old(self).cache().insert(slot, r@)
            },
    {
        if let Some(v) = self.peer_cache.get(&slot) {
            return slice_to_vec(v.as_slice());
        }
        let tree: Option<TurbineTree> = tree_provider(slot);
        let ghost was = tree;
        assert(tree_provider.ensures((slot,), was));
        let ids: Vec<Digest> = match tree {
            Some(t) => {
                assert(tree_provider.ensures((slot,), Some(t)));
                t.retransmit_peers(&self.my_identity)
            },
            None => Vec::new(),
        };
        assert(ids@ =~= downstream(was, self.identity()));
        let out: Vec<PeerAddr> = addresses_of(ids.as_slice(), addr_lookup);
        let kept: Vec<PeerAddr> = slice_to_vec(out.as_slice());
        self.peer_cache.insert(slot, kept);
        assert(self.cache() =~= old(self).cache().insert(slot, out@));
        out
    }

    /// The slot's block is complete: its addresses are no longer needed.
    pub fn forget_peers(&mut self, slot: u64)
        ensures
            final(self).identity() == old(self).identity(),
            final(self).cache() == old(self).cache().remove(slot),
    {
        self.peer_cache.remove(&slot);
        assert(self.cache() =~= old(self).cache().remove(slot));
    }
}

/// The nodes that a node passes a slot's messages on to; none without a tree.
pub open spec fn downstream(tree: Option<TurbineTree>, identity: Digest) -> Seq<Digest> {
    match tree {
        Some(t) => peers(t.root(), t.order(), t.width(), identity),
        None => Seq::empty(),
    }
}

/// The addresses of some nodes: of each node that has one, in order.
pub open spec fn looked_up<A: Fn(&Digest) -> Option<PeerAddr>>(
    lookup: A,
    ids: Seq<Digest>,
    addrs: Seq<PeerAddr>,
) -> bool {
    exists|found: Seq<Option<PeerAddr>>| #[trigger]
        answers(lookup, ids, found) && addrs == found_addresses(found)
}

/// What the lookup can say of each node.
pub open spec fn answers<A: Fn(&Digest) -> Option<PeerAddr>>(
    lookup: A,
    ids: Seq<Digest>,
    found: Seq<Option<PeerAddr>>,
) -> bool {
    &&& found.len() == ids.len()
    &&& forall|i: int|
        0 <= i < ids.len() ==> lookup.ensures((&#[trigger] ids[i],), found[i])
}

/// The addresses of some nodes.
pub fn addresses_of<A: Fn(&Digest) -> Option<PeerAddr>>(ids: &[Digest], lookup: A) -> (r: Vec<
    PeerAddr,
>)
    requires
        forall|id: Digest| #[trigger] lookup.requires((&id,)),
    ensures
        looked_up(lookup, ids@, r@),
{
    let n: usize = ids.len();
    let mut out: Vec<PeerAddr> = Vec::new();
    let ghost mut found: Seq<Option<PeerAddr>> = Seq::empty();
    let mut i: usize = 0;
    while i < n
        invariant
            i <= n == ids@.len(),
            forall|id: Digest| #[trigger] lookup.requires((&id,)),
            found.len() == i,
            forall|k: int| 0 <= k < i ==> lookup.ensures((&#[trigger] ids@[k],), found[k]),
            out@ == found_addresses(found),
        decreases n - i,
    {
        let id: Digest = ids[i];
        let at: Option<PeerAddr> = lookup(&id);
        proof {
            let was = found;
            found = found.push(at);
            assert(found.drop_last() =~= was);
        }
        if let Some(a) = at {
            out.push(a);
        }
        i = i + 1;
    }
    assert(answers(lookup, ids@, found));
    out
}

/// The addresses that were found, in order.
pub open spec fn found_addresses(found: Seq<Option<PeerAddr>>) -> Seq<PeerAddr>
    decreases found.len(),
{
    if found.len() == 0 {
        Seq::empty()
    } else {
        let before = found_addresses(found.drop_last());
        match found.last() {
            Some(a) => before.push(a),
            None => before,
        }
    }
}

/// Messages of a slot are passed over exactly if its block is stored or if the slot is more than
/// 1024 slots behind the replay tip.
pub proof fn old_and_stored_slots_are_passed_over(c: CollectorModel, replay_tip: u64, slot: u64)
    ensures
        c.stored.contains(slot) ==> skip_of(c, replay_tip, slot) == Some(Skip::Stored),
        !c.stored.contains(slot) && slot + 1024 < replay_tip ==> skip_of(c, replay_tip, slot)
            == Some(Skip::Stale),
        !c.stored.contains(slot) && slot + 1024 >= replay_tip ==> skip_of(c, replay_tip, slot)
            is None,
{
}

/// A shred goes further only under a header that bears it out. One that the header does not
/// bear out leaves no trace, one without a header waits, and one of a slot that is stored or
/// long past is passed over.
pub proof fn only_proven_shreds_go_further(
    was: ShredCollector,
    is: ShredCollector,
    shred: MerkleShred,
    replay_tip: u64,
    proof_valid: bool,
    r: ShredOutcome,
)
    requires
        shred_taken(&was, &is, shred, replay_tip, proof_valid, r),
    ensures
        ({
            let slot = shred.slot_of();
            let c = was.model();
            let passed_over = c.stored.contains(slot) || slot + 1024 < replay_tip;
            let has_header = c.slots.contains_key(slot) && c.slots[slot].header is Some;
            &&& r is Skipped <==> passed_over
            &&& r is Accepted <==> !passed_over && has_header && proof_valid
            &&& r is InvalidProof <==> !passed_over && has_header && !proof_valid
            &&& r is Deferred <==> !passed_over && !has_header
            &&& r is Skipped || r is InvalidProof ==> is.model() == c
            &&& r is Deferred ==> is.model().slots.contains_key(slot) && is.model().stored
                == c.stored
            &&& r matches ShredOutcome::Accepted(Some(_)) ==> is.model().stored.contains(slot)
                && !(is).model().slots.contains_key(slot)
        }),
{
}

/// A shred that waits for its header is kept, if it is new and there is room for it.
pub proof fn waiting_shred_is_kept(
    was: ShredCollector,
    is: ShredCollector,
    shred: MerkleShred,
    replay_tip: u64,
    proof_valid: bool,
    r: ShredOutcome,
)
    requires
        shred_taken(&was, &is, shred, replay_tip, proof_valid, r),
        r is Deferred,
        shred.index_of() < was.shred_limit(),
        was.model().slots.contains_key(shred.slot_of()) ==> {
            let s = was.model().slots[shred.slot_of()];
            &&& s.data.dom().len() + s.code.dom().len() < was.shred_limit()
            &&& !s.data.contains_key(shred.index_of())
            &&& !s.code.contains_key(shred.index_of())
        },
    ensures
        ({
            let s = is.model().slots[shred.slot_of()];
            match shred {
                MerkleShred::Data(d) => s.data.contains_key(d.shred.index)
                    && s.data[d.shred.index] == d.model(),
                MerkleShred::Code(d) => s.code.contains_key(d.shred.index)
                    && s.code[d.shred.index] == d.model(),
            }
        }),
{
    let e = empty_slot();
    assert(e.data.dom() =~= Set::<u32>::empty());
    assert(e.code.dom() =~= Set::<u32>::empty());
}

/// The places of the nodes that were found, in order.
pub open spec fn found_at(found: Seq<Option<PeerAddr>>, at: Seq<int>) -> bool {
    &&& forall|i: int, j: int| 0 <= i < j < at.len() ==> (#[trigger] at[i]) < (#[trigger] at[j])
    &&& forall|i: int|
        0 <= i < at.len() ==> 0 <= #[trigger] at[i] < found.len() && found[at[i]] is Some
    &&& forall|p: int| 0 <= p < found.len() && (#[trigger] found[p]) is Some ==> at.contains(p)
}

/// Every node that has an address is sent to at that address, in the order of the nodes, and
/// nobody else is.
pub proof fn every_found_address_is_used(found: Seq<Option<PeerAddr>>) -> (at: Seq<int>)
    ensures
        found_at(found, at),
        found_addresses(found).len() == at.len(),
        forall|i: int|
            0 <= i < at.len() ==> found[#[trigger] at[i]] == Some(found_addresses(found)[i]),
    decreases found.len(),
{
    if found.len() == 0 {
        Seq::empty()
    } else {
        let front = found.drop_last();
        let before = every_found_address_is_used(front);
        let n = front.len() as int;
        let at = if found.last() is Some {
            before.push(n)
        } else {
            before
        };
        assert forall|i: int, j: int| 0 <= i < j < at.len() implies (#[trigger] at[i]) < (
        #[trigger] at[j]) by {
            if j < before.len() {
                assert(before[i] < before[j]);
            } else {
                assert(before[i] < n);
            }
        }
        assert forall|i: int| 0 <= i < at.len() implies 0 <= #[trigger] at[i] < found.len()
            && found[at[i]] == Some(found_addresses(found)[i]) by {
            if i < before.len() {
                assert(at[i] == before[i]);
                assert(front[before[i]] == found[before[i]]);
            }
        }
        assert forall|p: int| 0 <= p < found.len() && (#[trigger] found[p]) is Some implies at.contains(
            p,
        ) by {
            if p < n {
                assert(front[p] == found[p]);
                let i = choose|i: int| 0 <= i < before.len() && before[i] == p;
                assert(at[i] == p);
            } else {
                assert(at[before.len() as int] == p);
            }
        }
        at
    }
}

/// Where every identity has an address, a lookup gives the addresses of all, in their order; where
/// none has one, it gives none.
pub proof fn known_peers_are_all_addressed<A: Fn(&Digest) -> Option<PeerAddr>>(
    lookup: A,
    ids: Seq<Digest>,
    addrs: Seq<PeerAddr>,
    address: spec_fn(Digest) -> PeerAddr,
)
    requires
        looked_up(lookup, ids, addrs),
    ensures
        (forall|id: Digest, a: Option<PeerAddr>| #[trigger]
            lookup.ensures((&id,), a) ==> a == Some(address(id))) ==> addrs.len() == ids.len()
            && forall|i: int| 0 <= i < ids.len() ==> #[trigger] addrs[i] == address(ids[i]),
        (forall|id: Digest, a: Option<PeerAddr>| #[trigger]
            lookup.ensures((&id,), a) ==> a is None) ==> addrs.len() == 0,
{
    let found = choose|found: Seq<Option<PeerAddr>>| #[trigger]
        answers(lookup, ids, found) && addrs == found_addresses(found);
    if forall|id: Digest, a: Option<PeerAddr>| #[trigger]
        lookup.ensures((&id,), a) ==> a == Some(address(id)) {
        assert forall|i: int| 0 <= i < found.len() implies #[trigger] found[i] == Some(
            address(ids[i]),
        ) by {
            assert(lookup.ensures((&ids[i],), found[i]));
        }
        lemma_all_found(found);
        assert forall|i: int| 0 <= i < ids.len() implies #[trigger] addrs[i] == address(
            ids[i],
        ) by {
            assert(found[i] == Some(addrs[i]));
        }
    }
    if forall|id: Digest, a: Option<PeerAddr>| #[trigger]
        lookup.ensures((&id,), a) ==> a is None {
        assert forall|i: int| 0 <= i < found.len() implies (#[trigger] found[i]) is None by {
            assert(lookup.ensures((&ids[i],), found[i]));
        }
        let at = every_found_address_is_used(found);
        if at.len() > 0 {
            assert(found[at[0]] is Some);
        }
    }
}

proof fn lemma_all_found(found: Seq<Option<PeerAddr>>)
    requires
        forall|i: int| 0 <= i < found.len() ==> (#[trigger] found[i]) is Some,
    ensures
        found_addresses(found).len() == found.len(),
        forall|i: int|
            0 <= i < found.len() ==> (#[trigger] found[i]) == Some(found_addresses(found)[i]),
    decreases found.len(),
{
    if found.len() > 0 {
        let front = found.drop_last();
        assert forall|i: int| 0 <= i < front.len() implies (#[trigger] front[i]) is Some by {
            assert(front[i] == found[i]);
        }
        assert(found[found.len() - 1] is Some);
        lemma_all_found(front);
        assert forall|i: int| 0 <= i < found.len() implies (#[trigger] found[i]) == Some(
            found_addresses(found)[i],
        ) by {
            if i < front.len() {
                assert(front[i] == found[i]);
            }
        }
    }
}

/// What is sent on goes to the nodes below this one in the tree of the slot, and to none without a
/// tree: a node of the tree has at most as many below it as the tree is wide, and the leader the
/// first of the order.
pub proof fn shreds_go_down_the_tree(tree: TurbineTree, identity: Digest, q: int)
    requires
        tree.width() > 0,
        0 <= q < tree.order().len(),
    ensures
        downstream(None, identity).len() == 0,
        downstream(Some(tree), identity).len() <= tree.width(),
        identity == tree.root() && tree.order().no_duplicates() && !tree.order().contains(
            tree.root(),
        ) ==> (downstream(Some(tree), identity).contains(tree.order()[q]) <==> q < tree.width()),
        identity != tree.root() && !tree.order().contains(identity) ==> downstream(
            Some(tree),
            identity,
        ).len() == 0,
{
    let order = tree.order();
    lemma_place(order, identity);
    if order.no_duplicates() && !order.contains(tree.root()) {
        peers_are_a_run_of_the_order(
            tree.root(),
            order,
            tree.width(),
            q as nat,
            q as nat,
            identity,
        );
    }
    if identity != tree.root() && place(order, identity) is Some {
        shreds_only_move_down(tree.root(), order, tree.width(), identity);
    }
}

} // verus!
