//! The tree along which the shreds of a slot spread from the leader.
//!
//! All nodes but the leader stand in a stake-weighted order that every node computes
//! alike. The first `fanout` of them hear from the leader, and each node passes on to up
//! to `fanout` nodes that stand further back.

use crate::bytes::{le_bytes, le_value};
use crate::codec::{from_slice, Codec};
use crate::digest::{hashed, Digest};
use vstd::arithmetic::div_mod::{
    lemma_div_nonincreasing, lemma_fundamental_div_mod, lemma_fundamental_div_mod_converse,
};
use vstd::prelude::*;
use vstd::slice::{slice_subrange, slice_to_vec};

verus! {

/// How many nodes each node sends to.
pub const TURBINE_FANOUT: u64 = 32;

/// Fixed-point scale factor for u128 integer arithmetic (10^18).
pub const SCALE: u128 = 1_000_000_000_000_000_000;

/// The most that luck adds to a node's weight: a hundredth of the scale.
pub const LUCK_SCALE: u128 = 10_000_000_000_000_000;

/// A node of the cluster: its stake, where it is known, and the digest that decides its
/// luck in this slot, the hash of the slot's seed and the node's identity.
#[derive(Clone, Copy, Debug)]
pub struct ClusterNode {
    pub identity: Digest,
    pub stake: Option<u64>,
    pub draw: Digest,
}

/// The nodes of a cluster in a slot: each with its stake and with its draw, the hash of the
/// slot's seed and the node's identity. The seed is the hash of the slot and the leader.
pub open spec fn drawn_for<S: Fn(&Digest) -> Option<u64>, H: Fn(&Vec<u8>) -> Digest>(
    identities: Seq<Digest>,
    slot: u64,
    leader: Digest,
    stakes: S,
    hash: H,
    seed: Digest,
    nodes: Seq<ClusterNode>,
) -> bool {
    &&& hashed(hash, le_bytes(slot as nat, 8) + leader@, seed)
    &&& nodes.len() == identities.len()
    &&& forall|i: int|
        0 <= i < nodes.len() ==> {
            let node = #[trigger] nodes[i];
            &&& node.identity == identities[i]
            &&& stakes.ensures((&identities[i],), node.stake)
            &&& hashed(hash, seed@ + identities[i]@, node.draw)
        }
}

impl ClusterNode {
    /// The nodes with these identities in a slot, as `TurbineTree::new` takes them.
    pub fn for_slot<S: Fn(&Digest) -> Option<u64>, H: Fn(&Vec<u8>) -> Digest>(
        identities: &[Digest],
        slot: u64,
        leader: Digest,
        stakes: S,
        hash: H,
    ) -> (r: Vec<ClusterNode>)
        requires
            forall|identity: Digest| #[trigger] stakes.requires((&identity,)),
            forall|bytes: Vec<u8>| #[trigger] hash.requires((&bytes,)),
        ensures
            exists|seed: Digest| #[trigger]
                drawn_for(identities@, slot, leader, stakes, hash, seed, r@),
    {
        let mut buf: Vec<u8> = Vec::new();
        let _ = slot.encode(&mut buf);
        let _ = leader.encode(&mut buf);
        assert(buf@ =~= le_bytes(slot as nat, 8) + leader@);
        let seed: Digest = hash(&buf);
        let n: usize = identities.len();
        let mut nodes: Vec<ClusterNode> = Vec::new();
        let mut i: usize = 0;
        while i < n
            invariant
                i <= n == identities@.len(),
                forall|identity: Digest| #[trigger] stakes.requires((&identity,)),
                forall|bytes: Vec<u8>| #[trigger] hash.requires((&bytes,)),
                hashed(hash, le_bytes(slot as nat, 8) + leader@, seed),
                drawn_for(identities@.take(i as int), slot, leader, stakes, hash, seed, nodes@),
            decreases n - i,
        {
            let identity: Digest = identities[i];
            let stake: Option<u64> = stakes(&identity);
            let mut bytes: Vec<u8> = Vec::new();
            let _ = seed.encode(&mut bytes);
            let _ = identity.encode(&mut bytes);
            assert(bytes@ =~= seed@ + identity@);
            let draw: Digest = hash(&bytes);
            assert(hashed(hash, seed@ + identity@, draw));
            let ghost was = nodes@;
            nodes.push(ClusterNode { identity, stake, draw });
            proof {
                let before = identities@.take(i as int);
                let now = identities@.take(i + 1);
                assert forall|k: int| 0 <= k < nodes@.len() implies ({
                    let node = #[trigger] nodes@[k];
                    &&& node.identity == now[k]
                    &&& stakes.ensures((&now[k],), node.stake)
                    &&& hashed(hash, seed@ + now[k]@, node.draw)
                }) by {
                    if k < i {
                        assert(nodes@[k] == was[k]);
                        assert(before[k] == now[k]);
                    }
                }
            }
            i = i + 1;
        }
        assert(identities@.take(n as int) =~= identities@);
        nodes
    }
}

/// A node without a known stake counts as one.
pub open spec fn stake_of(node: ClusterNode) -> u64 {
    match node.stake {
        Some(s) => s,
        None => 1,
    }
}

/// The nodes that pass shreds on: all but the leader.
pub open spec fn relays(leader: Digest, cluster: Seq<ClusterNode>) -> Seq<ClusterNode>
    decreases cluster.len(),
{
    if cluster.len() == 0 {
        Seq::empty()
    } else if cluster.last().identity == leader {
        relays(leader, cluster.drop_last())
    } else {
        relays(leader, cluster.drop_last()).push(cluster.last())
    }
}

pub open spec fn total_stake(nodes: Seq<ClusterNode>) -> nat
    decreases nodes.len(),
{
    if nodes.len() == 0 {
        0
    } else {
        total_stake(nodes.drop_last()) + stake_of(nodes.last()) as nat
    }
}

/// The node's share of the stake, and a random part of at most a hundredth of the whole.
pub open spec fn weight(node: ClusterNode, total: nat) -> nat {
    let luck = le_value(node.draw@.subrange(0, 8));
    (stake_of(node) as nat * SCALE as nat) / total + (luck * LUCK_SCALE as nat) / (u64::MAX as nat)
}

/// Node `i` stands before node `j`: it weighs more, or as much and was listed earlier.
/// Without any stake the listed order stays.
pub open spec fn stands_before(nodes: Seq<ClusterNode>, i: int, j: int) -> bool {
    let total = total_stake(nodes);
    if total == 0 {
        i < j
    } else {
        let a = weight(nodes[i], total);
        let b = weight(nodes[j], total);
        a > b || (a == b && i < j)
    }
}

/// `order` lists the places of all nodes, each once, as they stand.
pub open spec fn is_standing(nodes: Seq<ClusterNode>, order: Seq<int>) -> bool {
    &&& order.len() == nodes.len()
    &&& forall|k: int| 0 <= k < order.len() ==> 0 <= #[trigger] order[k] < nodes.len()
    &&& forall|k: int, l: int|
        0 <= k < l < order.len() ==> stands_before(nodes, #[trigger] order[k], #[trigger] order[l])
}

pub open spec fn identities(nodes: Seq<ClusterNode>, order: Seq<int>) -> Seq<Digest> {
    Seq::new(order.len(), |k: int| nodes[order[k]].identity)
}

/// The identities stand in the order that stakes and draws decide.
pub open spec fn is_shuffle(nodes: Seq<ClusterNode>, ids: Seq<Digest>) -> bool {
    exists|order: Seq<int>|
        #[trigger] is_standing(nodes, order) && ids == identities(nodes, order)
}

/// In a list without repetitions of places, as many as there are nodes, every place
/// occurs.
proof fn lemma_standing_is_onto(nodes: Seq<ClusterNode>, order: Seq<int>, i: int)
    requires
        is_standing(nodes, order),
        0 <= i < nodes.len(),
    ensures
        order.contains(i),
{
    if !order.contains(i) {
        assert forall|k: int, l: int| 0 <= k < order.len() && 0 <= l < order.len() && k
            != l implies order[k] != order[l] by {
            if k < l {
                assert(stands_before(nodes, order[k], order[l]));
            } else {
                assert(stands_before(nodes, order[l], order[k]));
            }
        }
        order.unique_seq_to_set();
        let all = vstd::set_lib::set_int_range(0, nodes.len() as int);
        vstd::set_lib::lemma_int_range(0, nodes.len() as int);
        let rest = all.remove(i);
        assert(order.to_set().subset_of(rest));
        vstd::set_lib::lemma_len_subset(order.to_set(), rest);
    }
}

/// Stakes and draws decide the order: there is only one, whoever computes it.
pub proof fn shuffle_is_deterministic(nodes: Seq<ClusterNode>, a: Seq<Digest>, b: Seq<Digest>)
    requires
        is_shuffle(nodes, a),
        is_shuffle(nodes, b),
    ensures
        a == b,
{
    let p = choose|order: Seq<int>|
        #[trigger] is_standing(nodes, order) && a == identities(nodes, order);
    let q = choose|order: Seq<int>|
        #[trigger] is_standing(nodes, order) && b == identities(nodes, order);
    lemma_orders_agree(nodes, p, q, nodes.len());
    assert(p =~= q);
}

proof fn lemma_orders_agree(nodes: Seq<ClusterNode>, p: Seq<int>, q: Seq<int>, n: nat)
    requires
        is_standing(nodes, p),
        is_standing(nodes, q),
        n <= nodes.len(),
    ensures
        forall|k: int| 0 <= k < n ==> p[k] == q[k],
    decreases n,
{
    if n > 0 {
        let k = n - 1;
        lemma_orders_agree(nodes, p, q, k as nat);
        lemma_standing_is_onto(nodes, q, p[k]);
        lemma_standing_is_onto(nodes, p, q[k]);
        let j = choose|j: int| 0 <= j < q.len() && q[j] == p[k];
        let l = choose|l: int| 0 <= l < p.len() && p[l] == q[k];
        if j < k {
            assert(p[j] == q[j]);
            assert(stands_before(nodes, p[j], p[k]));
        } else if l < k {
            assert(p[l] == q[l]);
            assert(stands_before(nodes, q[l], q[k]));
        } else if j > k {
            assert(stands_before(nodes, q[k], q[j]));
            if l > k {
                assert(stands_before(nodes, p[k], p[l]));
            }
        }
    }
}

/// The nodes of a shuffle are the given nodes, each as often as it was given.
pub proof fn shuffle_keeps_nodes(nodes: Seq<ClusterNode>, ids: Seq<Digest>)
    requires
        is_shuffle(nodes, ids),
    ensures
        ids.len() == nodes.len(),
        forall|k: int|
            0 <= k < ids.len() ==> exists|i: int|
                0 <= i < nodes.len() && (#[trigger] nodes[i]).identity == #[trigger] ids[k],
        forall|i: int| 0 <= i < nodes.len() ==> ids.contains((#[trigger] nodes[i]).identity),
        (forall|i: int, j: int|
            0 <= i < j < nodes.len() ==> (#[trigger] nodes[i]).identity != (
            #[trigger] nodes[j]).identity) ==> ids.no_duplicates(),
{
    let order = choose|order: Seq<int>|
        #[trigger] is_standing(nodes, order) && ids == identities(nodes, order);
    assert forall|k: int| 0 <= k < ids.len() implies exists|i: int|
        0 <= i < nodes.len() && (#[trigger] nodes[i]).identity == #[trigger] ids[k] by {
        assert(nodes[order[k]].identity == ids[k]);
    }
    assert forall|i: int| 0 <= i < nodes.len() implies ids.contains(
        (#[trigger] nodes[i]).identity,
    ) by {
        lemma_standing_is_onto(nodes, order, i);
        let k = choose|k: int| 0 <= k < order.len() && order[k] == i;
        assert(ids[k] == nodes[i].identity);
    }
    if forall|i: int, j: int|
        0 <= i < j < nodes.len() ==> (#[trigger] nodes[i]).identity != (
        #[trigger] nodes[j]).identity {
        assert forall|k: int, l: int| 0 <= k < ids.len() && 0 <= l < ids.len() && k
            != l implies ids[k] != ids[l] by {
            if k < l {
                assert(stands_before(nodes, order[k], order[l]));
            } else {
                assert(stands_before(nodes, order[l], order[k]));
            }
            assert(order[k] != order[l]);
            if order[k] < order[l] {
                assert(nodes[order[k]].identity != nodes[order[l]].identity);
            } else {
                assert(nodes[order[l]].identity != nodes[order[k]].identity);
            }
        }
    }
}

/// The random part of a node's weight, before scaling: the first eight bytes of its draw.
fn luck_of(draw: &Digest) -> (r: u64)
    ensures
        r as nat == le_value(draw@.subrange(0, 8)),
{
    match from_slice::<u64>(slice_subrange(draw.bytes.as_slice(), 0, 8)) {
        Ok(v) => {
            proof {
                crate::bytes::lemma_byte_ranges();
                crate::bytes::lemma_le_value_of_bytes(v as nat, 8);
            }
            v
        },
        Err(_) => {
            proof {
                let part = draw@.subrange(0, 8);
                crate::bytes::lemma_byte_ranges();
                crate::bytes::lemma_le_bytes_of_value(part);
                assert(crate::codec::encodes::<u64>(part, le_value(part) as u64));
            }
            0
        },
    }
}

fn weight_of(node: &ClusterNode, total: u64) -> (r: u128)
    requires
        total > 0,
    ensures
        r == weight(*node, total as nat),
{
    let stake: u64 = match node.stake {
        Some(s) => s,
        None => 1,
    };
    let luck: u64 = luck_of(&node.draw);
    let scaled: u128 = stake as u128 * SCALE;
    proof {
        lemma_div_nonincreasing(scaled as int, total as int);
    }
    let stake_component: u128 = scaled / total as u128;
    let rand_component: u128 = luck as u128 * LUCK_SCALE / (u64::MAX as u128);
    stake_component + rand_component
}

/// Stake-weighted order of the nodes: heavier first, equally heavy ones as listed.
pub fn weighted_shuffle_turbine(nodes: &[ClusterNode]) -> (r: Vec<Digest>)
    requires
        total_stake(nodes@) <= u64::MAX,
    ensures
        is_shuffle(nodes@, r@),
{
    let n: usize = nodes.len();
    let mut total: u64 = 0;
    let mut i: usize = 0;
    assert(nodes@.take(0) =~= Seq::empty());
    while i < n
        invariant
            i <= n == nodes@.len(),
            total == total_stake(nodes@.take(i as int)),
            total_stake(nodes@) <= u64::MAX,
        decreases n - i,
    {
        let stake: u64 = match nodes[i].stake {
            Some(s) => s,
            None => 1,
        };
        proof {
            assert(nodes@.take(i + 1).drop_last() =~= nodes@.take(i as int));
            lemma_total_monotone(nodes@, i + 1);
        }
        total = total + stake;
        i = i + 1;
    }
    assert(nodes@.take(n as int) =~= nodes@);
    let mut placed: Vec<(usize, u128)> = Vec::new();
    let mut i: usize = 0;
    while i < n
        invariant
            i <= n == nodes@.len(),
            total == total_stake(nodes@),
            placed@.len() == i,
            standing_upto(nodes@, placed@, i as int),
        decreases n - i,
    {
        let w: u128 = if total == 0 {
            0
        } else {
            weight_of(&nodes[i], total)
        };
        let mut at: usize = i;
        while at > 0 && placed[at - 1].1 < w
            invariant
                at <= i == placed@.len(),
                i < n == nodes@.len(),
                total == total_stake(nodes@),
                total == 0 ==> w == 0,
                total > 0 ==> w == weight(nodes@[i as int], total as nat),
                standing_upto(nodes@, placed@, i as int),
                forall|k: int| at <= k < i ==> (#[trigger] placed@[k]).1 < w,
            decreases at,
        {
            at = at - 1;
        }
        let ghost before = placed@;
        placed.insert(at, (i, w));
        proof {
            assert forall|k: int, l: int| 0 <= k < l < placed@.len() implies stands_before(
                nodes@,
                (#[trigger] placed@[k]).0 as int,
                (#[trigger] placed@[l]).0 as int,
            ) by {
                let a = if k < at {
                    k
                } else {
                    k - 1
                };
                let b = if l < at {
                    l
                } else {
                    l - 1
                };
                if k != at && l != at {
                    assert(placed@[k] == before[a] && placed@[l] == before[b]);
                } else if k == at {
                    assert(placed@[l] == before[b]);
                } else {
                    assert(placed@[k] == before[k]);
                    assert(before[k].1 >= w) by {
                        if at > 0 {
                            assert(before[at - 1].1 >= w);
                            if k < at - 1 {
                                assert(stands_before(
                                    nodes@,
                                    before[k].0 as int,
                                    before[at - 1].0 as int,
                                ));
                            }
                        }
                    }
                }
            }
            assert forall|k: int| 0 <= k < placed@.len() implies {
                &&& (#[trigger] placed@[k]).0 <= i
                &&& total == 0 ==> placed@[k].1 == 0
                &&& total > 0 ==> placed@[k].1 == weight(nodes@[placed@[k].0 as int], total as nat)
            } by {
                if k < at {
                    assert(placed@[k] == before[k]);
                } else if k > at {
                    assert(placed@[k] == before[k - 1]);
                }
            }
        }
        i = i + 1;
    }
    let ghost order = Seq::new(placed@.len(), |k: int| placed@[k].0 as int);
    assert(is_standing(nodes@, order));
    let mut ids: Vec<Digest> = Vec::new();
    let mut k: usize = 0;
    while k < n
        invariant
            k <= n == nodes@.len(),
            placed@.len() == n,
            ids@.len() == k,
            order == Seq::new(placed@.len(), |j: int| placed@[j].0 as int),
            is_standing(nodes@, order),
            forall|j: int| 0 <= j < k ==> ids@[j] == identities(nodes@, order)[j],
        decreases n - k,
    {
        assert(order[k as int] == placed@[k as int].0);
        ids.push(nodes[placed[k].0].identity);
        k = k + 1;
    }
    assert(ids@ =~= identities(nodes@, order));
    ids
}

/// The first `n` nodes, sorted into place with their weights.
spec fn standing_upto(nodes: Seq<ClusterNode>, placed: Seq<(usize, u128)>, n: int) -> bool {
    let total = total_stake(nodes);
    &&& forall|k: int|
        0 <= k < placed.len() ==> {
            &&& (#[trigger] placed[k]).0 < n
            &&& total == 0 ==> placed[k].1 == 0
            &&& total > 0 ==> placed[k].1 == weight(nodes[placed[k].0 as int], total)
        }
    &&& forall|k: int, l: int|
        0 <= k < l < placed.len() ==> stands_before(
            nodes,
            (#[trigger] placed[k]).0 as int,
            (#[trigger] placed[l]).0 as int,
        )
}

proof fn lemma_total_monotone(nodes: Seq<ClusterNode>, k: int)
    requires
        0 <= k <= nodes.len(),
    ensures
        total_stake(nodes.take(k)) <= total_stake(nodes),
    decreases nodes.len() - k,
{
    if k == nodes.len() {
        assert(nodes.take(k) =~= nodes);
    } else {
        lemma_total_monotone(nodes, k + 1);
        assert(nodes.take(k + 1).drop_last() =~= nodes.take(k));
    }
}

// ---------------------------------------------------------------------------
// The tree
// ---------------------------------------------------------------------------

/// Where a node first stands in the order.
pub open spec fn place(order: Seq<Digest>, id: Digest) -> Option<nat>
    decreases order.len(),
{
    if order.len() == 0 {
        None
    } else {
        match place(order.drop_last(), id) {
            Some(p) => Some(p),
            None => if order.last() == id {
                Some((order.len() - 1) as nat)
            } else {
                None
            },
        }
    }
}

/// The place of the first node that the node at `p` sends to.
pub open spec fn first_child(p: nat, fanout: nat) -> nat {
    (p / fanout + 1) * fanout + (p % fanout) * fanout
}

/// The nodes from place `from` on, at most `count` of them.
pub open spec fn run_of(order: Seq<Digest>, from: nat, count: nat) -> Seq<Digest> {
    if from >= order.len() {
        Seq::empty()
    } else if from + count <= order.len() {
        order.subrange(from as int, (from + count) as int)
    } else {
        order.subrange(from as int, order.len() as int)
    }
}

/// Whom a node sends to.
pub open spec fn peers(leader: Digest, order: Seq<Digest>, fanout: nat, id: Digest) -> Seq<Digest> {
    if id == leader {
        run_of(order, 0, fanout)
    } else {
        match place(order, id) {
            Some(p) => run_of(order, first_child(p, fanout), fanout),
            None => Seq::empty(),
        }
    }
}

pub proof fn lemma_place(order: Seq<Digest>, id: Digest)
    ensures
        match place(order, id) {
            Some(p) => p < order.len() && order[p as int] == id && forall|k: int|
                0 <= k < p ==> order[k] != id,
            None => !order.contains(id),
        },
    decreases order.len(),
{
    if order.len() > 0 {
        let front = order.drop_last();
        lemma_place(front, id);
        assert forall|k: int| 0 <= k < front.len() implies front[k] == order[k] by {}
        if place(front, id) is Some {
            let p = place(front, id)->0;
            assert forall|k: int| 0 <= k < p implies order[k] != id by {
                assert(front[k] != id);
            }
        } else {
            assert forall|k: int| 0 <= k < order.len() - 1 implies order[k] != id by {
                assert(front[k] == order[k]);
                assert(!front.contains(id));
            }
        }
    }
}

/// Every node hears of a shred: it is one of those that the leader sends to, or one of
/// those that a node standing before it sends to.
pub proof fn every_node_is_reached(
    leader: Digest,
    order: Seq<Digest>,
    fanout: nat,
    q: nat,
) -> (parent: Digest)
    requires
        fanout > 0,
        order.no_duplicates(),
        !order.contains(leader),
        q < order.len(),
    ensures
        peers(leader, order, fanout, parent).contains(order[q as int]),
        parent == leader || exists|p: int| 0 <= p < q && #[trigger] order[p] == parent,
{
    if q < fanout {
        let run = run_of(order, 0, fanout);
        assert(run[q as int] == order[q as int]);
        leader
    } else {
        let layer = q / fanout;
        lemma_fundamental_div_mod(q as int, fanout as int);
        assert(1 <= layer) by (nonlinear_arith)
            requires
                q >= fanout,
                fanout > 0,
                layer == q / fanout,
        ;
        let p = ((layer - 1) * fanout) as nat;
        assert(p == (layer - 1) * fanout && p + fanout == layer * fanout) by (nonlinear_arith)
            requires
                1 <= layer,
                p == ((layer - 1) * fanout) as nat,
                fanout > 0,
        ;
        assert(fanout * layer == layer * fanout) by (nonlinear_arith);
        lemma_fundamental_div_mod_converse(p as int, fanout as int, layer - 1, 0);
        assert(first_child(p, fanout) == layer * fanout) by {
            assert(p / fanout == layer - 1);
            assert(p % fanout == 0);
            assert(0 * fanout == 0) by (nonlinear_arith);
            assert((layer - 1 + 1) * fanout == layer * fanout);
        }
        let parent = order[p as int];
        lemma_place(order, parent);
        if place(order, parent) is None {
            assert(order.contains(parent));
        }
        assert(place(order, parent) == Some(p));
        let run = run_of(order, first_child(p, fanout), fanout);
        assert(run[q - layer * fanout] == order[q as int]);
        assert(parent != leader) by {
            if parent == leader {
                assert(order.contains(leader));
            }
        }
        parent
    }
}

/// A node sends only to nodes that stand behind it, and to no more than `fanout` of them.
pub proof fn shreds_only_move_down(leader: Digest, order: Seq<Digest>, fanout: nat, id: Digest)
    requires
        fanout > 0,
        id != leader,
        place(order, id) is Some,
    ensures
        ({
            let p = place(order, id)->0;
            let start = first_child(p, fanout);
            &&& start > p
            &&& peers(leader, order, fanout, id) == run_of(order, start, fanout)
            &&& peers(leader, order, fanout, id).len() <= fanout
        }),
{
    let p = place(order, id)->0;
    lemma_fundamental_div_mod(p as int, fanout as int);
    let start = first_child(p, fanout);
    assert(start > p) by (nonlinear_arith)
        requires
            start == (p / fanout + 1) * fanout + (p % fanout) * fanout,
            p == fanout * (p / fanout) + (p % fanout),
            p % fanout < fanout,
            fanout > 0,
    ;
}

pub struct TurbineTree {
    leader: Digest,
    nodes: Vec<Digest>,
    fanout: usize,
}

impl TurbineTree {
    pub closed spec fn root(&self) -> Digest {
        self.leader
    }

    /// The nodes besides the leader, as they stand.
    pub closed spec fn order(&self) -> Seq<Digest> {
        self.nodes@
    }

    pub closed spec fn width(&self) -> nat {
        self.fanout as nat
    }

    /// Build a turbine tree over all nodes of the cluster, of which the leader may be one.
    pub fn new(leader: Digest, cluster_nodes: &[ClusterNode], fanout: usize) -> (r: Self)
        requires
            total_stake(relays(leader, cluster_nodes@)) <= u64::MAX,
        ensures
            r.root() == leader,
            r.width() == fanout,
            is_shuffle(relays(leader, cluster_nodes@), r.order()),
    {
        let n: usize = cluster_nodes.len();
        let mut non_leader: Vec<ClusterNode> = Vec::new();
        let mut i: usize = 0;
        assert(cluster_nodes@.take(0) =~= Seq::empty());
        while i < n
            invariant
                i <= n == cluster_nodes@.len(),
                non_leader@ == relays(leader, cluster_nodes@.take(i as int)),
            decreases n - i,
        {
            let node: ClusterNode = cluster_nodes[i];
            assert(cluster_nodes@.take(i + 1).drop_last() =~= cluster_nodes@.take(i as int));
            if node.identity != leader {
                non_leader.push(node);
            }
            i = i + 1;
        }
        assert(cluster_nodes@.take(n as int) =~= cluster_nodes@);
        let nodes = weighted_shuffle_turbine(non_leader.as_slice());
        TurbineTree { leader, nodes, fanout }
    }

    fn position(&self, identity: &Digest) -> (r: Option<usize>)
        ensures
            match r {
                Some(p) => place(self.order(), *identity) == Some(p as nat) && p
                    < self.order().len(),
                None => place(self.order(), *identity) is None,
            },
    {
        let n: usize = self.nodes.len();
        let mut i: usize = 0;
        while i < n
            invariant
                i <= n == self.nodes@.len(),
                forall|k: int| 0 <= k < i ==> self.nodes@[k] != *identity,
            decreases n - i,
        {
            if self.nodes[i] == *identity {
                proof {
                    lemma_place(self.nodes@, *identity);
                    if place(self.nodes@, *identity) is None {
                        assert(self.nodes@.contains(*identity));
                    }
                }
                return Some(i);
            }
            i = i + 1;
        }
        proof {
            lemma_place(self.nodes@, *identity);
        }
        None
    }

    fn run(&self, from: usize, count: usize) -> (r: Vec<Digest>)
        ensures
            r@ == run_of(self.order(), from as nat, count as nat),
    {
        let n: usize = self.nodes.len();
        if from >= n {
            return Vec::new();
        }
        let end: usize = if count <= n - from {
            from + count
        } else {
            n
        };
        slice_to_vec(slice_subrange(self.nodes.as_slice(), from, end))
    }

    /// Get the peers that `my_identity` should retransmit to.
    pub fn retransmit_peers(&self, my_identity: &Digest) -> (r: Vec<Digest>)
        requires
            self.width() > 0 || *my_identity == self.root() || place(
                self.order(),
                *my_identity,
            ) is None,
        ensures
            r@ == peers(self.root(), self.order(), self.width(), *my_identity),
    {
        if *my_identity == self.leader {
            // Leader sends to layer 0 (first `fanout` nodes)
            return self.run(0, self.fanout);
        }
        let my_pos: usize = match self.position(my_identity) {
            Some(p) => p,
            None => {
                return Vec::new();
            },
        };
        // Layer 0 is the first `fanout` nodes, and so on.
        let layer: usize = my_pos / self.fanout;
        let pos_in_layer: usize = my_pos % self.fanout;
        let count: usize = self.nodes.len();
        proof {
            assert(my_pos < count);
            lemma_div_nonincreasing(my_pos as int, self.fanout as int);
        }
        let ghost start = first_child(my_pos as nat, self.fanout as nat);
        let next_layer_start: Option<usize> = (layer + 1).checked_mul(self.fanout);
        let within: Option<usize> = pos_in_layer.checked_mul(self.fanout);
        match (next_layer_start, within) {
            (Some(a), Some(b)) => match a.checked_add(b) {
                Some(child_start) => self.run(child_start, self.fanout),
                None => {
                    assert(start > usize::MAX);
                    Vec::new()
                },
            },
            _ => {
                assert(start > usize::MAX) by (nonlinear_arith)
                    requires
                        start == (layer + 1) * self.fanout + pos_in_layer * self.fanout,
                        (layer + 1) * self.fanout > usize::MAX || pos_in_layer * self.fanout
                            > usize::MAX,
                        layer >= 0,
                        pos_in_layer >= 0,
                        self.fanout >= 0,
                ;
                Vec::new()
            },
        }
    }

    /// Which layer is this node in? Layer 0 is directly connected to leader.
    pub fn layer_of(&self, identity: &Digest) -> (r: Option<usize>)
        requires
            self.width() > 0 || *identity == self.root() || place(self.order(), *identity) is None,
        ensures
            match r {
                Some(layer) => *identity != self.root() && place(self.order(), *identity) is Some
                    && layer == (place(self.order(), *identity)->0) / self.width(),
                None => *identity == self.root() || place(self.order(), *identity) is None,
            },
    {
        if *identity == self.leader {
            return None;  // Leader is not in any layer
        }
        match self.position(identity) {
            Some(p) => Some(p / self.fanout),
            None => None,
        }
    }

    pub fn leader(&self) -> (r: Digest)
        ensures
            r == self.root(),
    {
        self.leader
    }

    pub fn total_nodes(&self) -> (r: usize)
        requires
            self.order().len() < usize::MAX,
        ensures
            r == self.order().len() + 1,
    {
        self.nodes.len() + 1  // +1 for leader
    }
}

/// The leader sends to the first `fanout` nodes. The node at place `p` sends to the run of
/// `fanout` nodes that starts at `(p / fanout + 1) * fanout + (p % fanout) * fanout`, as far as
/// there are nodes. Who is not in the tree sends to nobody.
pub proof fn peers_are_a_run_of_the_order(
    leader: Digest,
    order: Seq<Digest>,
    fanout: nat,
    p: nat,
    q: nat,
    stranger: Digest,
)
    requires
        fanout > 0,
        order.no_duplicates(),
        !order.contains(leader),
        p < order.len(),
        q < order.len(),
    ensures
        peers(leader, order, fanout, leader).contains(order[q as int]) <==> q < fanout,
        peers(leader, order, fanout, order[p as int]).contains(order[q as int]) <==> {
            let start = (p / fanout + 1) * fanout + (p % fanout) * fanout;
            start <= q < start + fanout
        },
        stranger != leader && !order.contains(stranger) ==> peers(
            leader,
            order,
            fanout,
            stranger,
        ).len() == 0,
        peers(leader, order, fanout, leader).len() <= fanout,
        peers(leader, order, fanout, order[p as int]).len() <= fanout,
{
    let id = order[p as int];
    lemma_place(order, id);
    lemma_place(order, stranger);
    assert(place(order, id) == Some(p)) by {
        if place(order, id) is None {
            assert(order.contains(id));
        }
    }
    let start = first_child(p, fanout);
    lemma_run_contains(order, 0, fanout, q);
    lemma_run_contains(order, start, fanout, q);
    assert(id != leader) by {
        assert(order.contains(id));
    }
}

proof fn lemma_run_contains(order: Seq<Digest>, from: nat, count: nat, q: nat)
    requires
        order.no_duplicates(),
        q < order.len(),
    ensures
        run_of(order, from, count).contains(order[q as int]) <==> from <= q < from + count,
        run_of(order, from, count).len() <= count,
{
    let run = run_of(order, from, count);
    if from <= q < from + count {
        assert(run[q - from] == order[q as int]);
    }
    if run.contains(order[q as int]) {
        let i = choose|i: int| 0 <= i < run.len() && run[i] == order[q as int];
        assert(order[from + i] == order[q as int]);
    }
}

/// All nodes but the leader pass shreds on, each once for every time that it is listed.
pub proof fn relays_are_all_but_the_leader(
    leader: Digest,
    cluster: Seq<ClusterNode>,
    node: ClusterNode,
)
    ensures
        relays(leader, cluster).contains(node) <==> cluster.contains(node) && node.identity
            != leader,
        (forall|i: int|
            0 <= i < cluster.len() ==> (#[trigger] cluster[i]).identity != leader) ==> relays(
            leader,
            cluster,
        ) == cluster,
    decreases cluster.len(),
{
    let all = relays(leader, cluster);
    if cluster.len() > 0 {
        let front = cluster.drop_last();
        let last = cluster.last();
        let before = relays(leader, front);
        relays_are_all_but_the_leader(leader, front, node);
        if front.contains(node) {
            let i = choose|i: int| 0 <= i < front.len() && front[i] == node;
            assert(cluster[i] == node);
        }
        assert(cluster[cluster.len() - 1] == last);
        if cluster.contains(node) && node != last {
            let i = choose|i: int| 0 <= i < cluster.len() && cluster[i] == node;
            assert(front[i] == node);
        }
        if last.identity != leader {
            assert(all[before.len() as int] == last);
            if before.contains(node) {
                let i = choose|i: int| 0 <= i < before.len() && before[i] == node;
                assert(all[i] == node);
            }
        }
        if forall|i: int| 0 <= i < cluster.len() ==> (#[trigger] cluster[i]).identity != leader {
            assert forall|i: int| 0 <= i < front.len() implies (#[trigger] front[i]).identity
                != leader by {
                assert(front[i] == cluster[i]);
            }
            assert(front.push(last) =~= cluster);
        }
    } else {
        assert(all =~= cluster);
    }
}

proof fn lemma_luck_bound(node: ClusterNode) -> (luck: nat)
    ensures
        luck == (le_value(node.draw@.subrange(0, 8)) * LUCK_SCALE as nat) / (u64::MAX as nat),
        luck <= 10_000_000_000_000_000,
{
    let part = node.draw@.subrange(0, 8);
    crate::bytes::lemma_byte_ranges();
    crate::bytes::lemma_le_bytes_of_value(part);
    let v = le_value(part);
    assert(v <= u64::MAX);
    let luck = (v * LUCK_SCALE as nat) / (u64::MAX as nat);
    assert(luck <= 10_000_000_000_000_000) by (nonlinear_arith)
        requires
            v <= u64::MAX,
            luck == (v * 10_000_000_000_000_000nat) / (0xffff_ffff_ffff_ffffnat),
    ;
    luck
}

/// Stake decides where nodes stand, and luck no more than a little. A node whose stake is
/// greater by a fiftieth of the whole stands before the other, whatever they have drawn. With
/// equal draws the greater stake does not stand behind. Without any stake the nodes stand as
/// they were listed.
pub proof fn stake_outweighs_luck(nodes: Seq<ClusterNode>, ids: Seq<Digest>, i: int, j: int)
    requires
        is_shuffle(nodes, ids),
        0 <= i < nodes.len(),
        0 <= j < nodes.len(),
        i != j,
        forall|k: int, l: int|
            0 <= k < l < nodes.len() ==> (#[trigger] nodes[k]).identity != (
            #[trigger] nodes[l]).identity,
    ensures
        ({
            let total = total_stake(nodes);
            let a = match nodes[i].stake {
                Some(s) => s as int,
                None => 1int,
            };
            let b = match nodes[j].stake {
                Some(s) => s as int,
                None => 1int,
            };
            let first = |x: int, y: int|
                exists|p: int, q: int|
                    0 <= p < q < ids.len() && #[trigger] ids[p] == nodes[x].identity
                        && #[trigger] ids[q] == nodes[y].identity;
            &&& total > 0 && (a - b) * 50 >= total ==> first(i, j)
            &&& total > 0 && a >= b && nodes[i].draw == nodes[j].draw && i < j ==> first(i, j)
            &&& total == 0 && i < j ==> first(i, j)
        }),
{
    let total = total_stake(nodes);
    let order = choose|order: Seq<int>|
        #[trigger] is_standing(nodes, order) && ids == identities(nodes, order);
    lemma_standing_is_onto(nodes, order, i);
    lemma_standing_is_onto(nodes, order, j);
    let p = choose|p: int| 0 <= p < order.len() && order[p] == i;
    let q = choose|q: int| 0 <= q < order.len() && order[q] == j;
    assert(ids[p] == nodes[i].identity && ids[q] == nodes[j].identity);
    let a = stake_of(nodes[i]) as int;
    let b = stake_of(nodes[j]) as int;
    if q < p {
        assert(stands_before(nodes, order[q], order[p]));
        if total > 0 {
            let la = lemma_luck_bound(nodes[i]);
            let lb = lemma_luck_bound(nodes[j]);
            let t = total as int;
            let x = (a * 1_000_000_000_000_000_000) / t;
            let y = (b * 1_000_000_000_000_000_000) / t;
            if (a - b) * 50 >= t {
                assert(x >= y + 2 * 10_000_000_000_000_000 - 1) by (nonlinear_arith)
                    requires
                        x == (a * 1_000_000_000_000_000_000) / t,
                        y == (b * 1_000_000_000_000_000_000) / t,
                        (a - b) * 50 >= t,
                        t > 0,
                ;
                assert(weight(nodes[i], total) == x + la);
                assert(weight(nodes[j], total) == y + lb);
            }
            if a >= b {
                assert(x >= y) by (nonlinear_arith)
                    requires
                        x == (a * 1_000_000_000_000_000_000) / t,
                        y == (b * 1_000_000_000_000_000_000) / t,
                        a >= b,
                        t > 0,
                ;
                assert(weight(nodes[i], total) == x + la);
                assert(weight(nodes[j], total) == y + lb);
            }
        }
    }
}

} // verus!
