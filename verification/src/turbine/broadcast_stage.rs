//! What the leader sends: the header of its block first, then every shred.

use crate::codec::Codec;
use crate::digest::Digest;
use crate::ledger::Block;
use crate::merkle::MerkleProof;
use crate::net::PeerAddr;
use crate::turbine::error::TurbineError;
use crate::turbine::merkle_shred::{MerkleCodeShred, MerkleDataShred, MerkleShred, MerkleShredModel};
use crate::turbine::protocol::{message_bytes, message_fits, MessageModel, TurbineMessage};
use crate::turbine::retransmit_stage::{addresses_of, looked_up};
use crate::turbine::shred_receiver::message_models;
use crate::turbine::shredder::{chunk_count, shredded, ShredBatch, Shredder};
use crate::turbine::turbine_tree::{peers, place, TurbineTree};
use crate::zstd_frames::payload_of;
use vstd::prelude::*;

verus! {

/// The header, the data shreds, the code shreds.
pub open spec fn broadcast_models(batch: ShredBatch) -> Seq<MessageModel> {
    seq![MessageModel::ShredBatchHeader(batch.header.model())] + Seq::new(
        batch.data_shreds@.len(),
        |i: int| MessageModel::Shred(MerkleShredModel::Data(batch.data_shreds@[i].model())),
    ) + Seq::new(
        batch.code_shreds@.len(),
        |i: int| MessageModel::Shred(MerkleShredModel::Code(batch.code_shreds@[i].model())),
    )
}

/// The wire forms of the messages, in order, without those of which a part is too long to
/// be written down.
pub open spec fn packets_of(messages: Seq<MessageModel>) -> Seq<Seq<u8>>
    decreases messages.len(),
{
    if messages.len() == 0 {
        Seq::empty()
    } else {
        let before = packets_of(messages.drop_last());
        if message_fits(messages.last()) {
            before.push(payload_of(message_bytes(messages.last())))
        } else {
            before
        }
    }
}

pub open spec fn packet_bytes(packets: Seq<Vec<u8>>) -> Seq<Seq<u8>> {
    Seq::new(packets.len(), |i: int| packets[i]@)
}

/// What is sent, and to whom: every packet to every address, in order.
#[derive(Debug)]
pub struct Broadcast {
    pub peers: Vec<PeerAddr>,
    pub packets: Vec<Vec<u8>>,
}

pub struct BroadcastStage;

impl BroadcastStage {
    /// Shred a block of which this node is the leader, for the peers in the first layer of
    /// the slot's tree: the batch header first, then the single shreds. The functions are
    /// those of `Shredder::shred_block`; `addr_lookup` gives the address of a node.
    pub fn broadcast_block<
        H: Fn(&Vec<u8>) -> Digest + Copy,
        T: FnOnce(&Vec<Digest>) -> (Digest, Vec<Option<MerkleProof>>),
        S: FnOnce(&Digest) -> Vec<u8>,
        A: Fn(&Digest) -> Option<PeerAddr>,
    >(
        block: &Block,
        leader: Digest,
        tree: &TurbineTree,
        hash: H,
        merkle_tree: T,
        sign: S,
        addr_lookup: A,
    ) -> (r: Result<Broadcast, TurbineError>)
        requires
            <Block as Codec>::fits(block.model()) ==> chunk_count(
                <Block as Codec>::layout(block.model()).len(),
            ) <= u32::MAX,
            tree.width() > 0 || leader == tree.root() || place(tree.order(), leader) is None,
            forall|bytes: Vec<u8>| #[trigger] hash.requires((&bytes,)),
            forall|leaves: Vec<Digest>| #[trigger] merkle_tree.requires((&leaves,)),
            forall|root: Digest| #[trigger] sign.requires((&root,)),
            forall|id: Digest| #[trigger] addr_lookup.requires((&id,)),
        ensures
            exists|batch: Result<ShredBatch, TurbineError>| #[trigger]
                shredded(
                    block,
                    block.header.parent_slot,
                    leader,
                    hash,
                    merkle_tree,
                    sign,
                    batch,
                ) && match batch {
                    Ok(b) => (r matches Ok(out) && packet_bytes(out.packets@) == packets_of(
                        broadcast_models(b),
                    ) && looked_up(
                        addr_lookup,
                        peers(tree.root(), tree.order(), tree.width(), leader),
                        out.peers@,
                    )),
                    Err(e) => r == Err::<Broadcast, TurbineError>(e),
                },
    {
        let made = Shredder::shred_block(
            block,
            block.header.parent_slot,
            leader,
            hash,
            merkle_tree,
            sign,
        );
        assert(shredded(
            block,
            block.header.parent_slot,
            leader,
            hash,
            merkle_tree,
            sign,
            made,
        ));
        let batch: ShredBatch = match made {
            Ok(batch) => batch,
            Err(e) => {
                return Err(e);
            },
        };
        let messages: Vec<TurbineMessage> = Self::messages(&batch);
        let packets: Vec<Vec<u8>> = Self::packets(messages.as_slice());
        let ids: Vec<Digest> = tree.retransmit_peers(&leader);
        let peers: Vec<PeerAddr> = addresses_of(ids.as_slice(), addr_lookup);
        Ok(Broadcast { peers, packets })
    }

    /// The messages of a broadcast, in the order in which they are sent.
    pub fn messages(batch: &ShredBatch) -> (r: Vec<TurbineMessage>)
        ensures
            message_models(r@) == broadcast_models(*batch),
    {
        let mut out: Vec<TurbineMessage> = Vec::new();
        out.push(TurbineMessage::ShredBatchHeader(batch.header.clone()));
        let n: usize = batch.data_shreds.len();
        let mut i: usize = 0;
        while i < n
            invariant
                i <= n == batch.data_shreds@.len(),
                out@.len() == 1 + i,
                out@[0].model() == MessageModel::ShredBatchHeader(batch.header.model()),
                forall|k: int|
                    0 <= k < i ==> (#[trigger] out@[1 + k]).model() == MessageModel::Shred(
                        MerkleShredModel::Data(batch.data_shreds@[k].model()),
                    ),
            decreases n - i,
        {
            out.push(TurbineMessage::Shred(MerkleShred::Data(batch.data_shreds[i].clone())));
            i = i + 1;
        }
        let m: usize = batch.code_shreds.len();
        let mut j: usize = 0;
        while j < m
            invariant
                j <= m == batch.code_shreds@.len(),
                n == batch.data_shreds@.len(),
                out@.len() == 1 + n + j,
                out@[0].model() == MessageModel::ShredBatchHeader(batch.header.model()),
                forall|k: int|
                    0 <= k < n ==> (#[trigger] out@[1 + k]).model() == MessageModel::Shred(
                        MerkleShredModel::Data(batch.data_shreds@[k].model()),
                    ),
                forall|k: int|
                    0 <= k < j ==> (#[trigger] out@[1 + n + k]).model() == MessageModel::Shred(
                        MerkleShredModel::Code(batch.code_shreds@[k].model()),
                    ),
            decreases m - j,
        {
            out.push(TurbineMessage::Shred(MerkleShred::Code(batch.code_shreds[j].clone())));
            j = j + 1;
        }
        proof {
            let want = broadcast_models(*batch);
            assert forall|k: int| 0 <= k < out@.len() implies message_models(out@)[k] == want[k] by {
                if 1 <= k < 1 + n {
                    assert(out@[1 + (k - 1)] == out@[k]);
                } else if k >= 1 + n {
                    assert(out@[1 + n + (k - 1 - n)] == out@[k]);
                }
            }
            assert(message_models(out@) =~= want);
        }
        out
    }

    /// The packets of a broadcast: every message in its wire form. A message that fails
    /// to serialise is left out.
    pub fn packets(messages: &[TurbineMessage]) -> (r: Vec<Vec<u8>>)
        ensures
            packet_bytes(r@) == packets_of(message_models(messages@)),
    {
        let ghost all = message_models(messages@);
        let n: usize = messages.len();
        let mut out: Vec<Vec<u8>> = Vec::new();
        let mut i: usize = 0;
        assert(all.take(0) =~= Seq::empty());
        assert(packet_bytes(out@) =~= Seq::empty());
        while i < n
            invariant
                i <= n == messages@.len(),
                all == message_models(messages@),
                packet_bytes(out@) == packets_of(all.take(i as int)),
            decreases n - i,
        {
            let ghost sent = packet_bytes(out@);
            let ghost m = all[i as int];
            assert(all.take(i + 1).drop_last() =~= all.take(i as int));
            if let Ok(bytes) = messages[i].serialize_to_bytes() {
                out.push(bytes);
                assert(packet_bytes(out@) =~= sent.push(payload_of(message_bytes(m))));
            }
            i = i + 1;
        }
        assert(all.take(n as int) =~= all);
        out
    }
}

proof fn lemma_all_fit(messages: Seq<MessageModel>)
    requires
        forall|i: int| 0 <= i < messages.len() ==> message_fits(#[trigger] messages[i]),
    ensures
        packets_of(messages).len() == messages.len(),
        forall|i: int|
            0 <= i < messages.len() ==> #[trigger] packets_of(messages)[i] == payload_of(
                message_bytes(messages[i]),
            ),
    decreases messages.len(),
{
    if messages.len() > 0 {
        lemma_all_fit(messages.drop_last());
    }
}

/// A broadcast sends every message once, in its wire form, the header first.
pub proof fn broadcast_sends_header_first(batch: ShredBatch)
    requires
        forall|i: int|
            0 <= i < batch.data_shreds@.len() ==> MerkleDataShred::fits(
                (#[trigger] batch.data_shreds@[i]).model(),
            ),
        forall|i: int|
            0 <= i < batch.code_shreds@.len() ==> MerkleCodeShred::fits(
                (#[trigger] batch.code_shreds@[i]).model(),
            ),
    ensures
        ({
            let all = broadcast_models(batch);
            &&& all[0] == MessageModel::ShredBatchHeader(batch.header.model())
            &&& all.len() == 1 + batch.data_shreds@.len() + batch.code_shreds@.len()
            &&& packets_of(all).len() == all.len()
            &&& forall|i: int|
                0 <= i < all.len() ==> #[trigger] packets_of(all)[i] == payload_of(
                    message_bytes(all[i]),
                )
        }),
{
    lemma_all_fit(broadcast_models(batch));
}

/// A broadcast is the header, then every data shred in order, then every code shred in order.
pub proof fn broadcast_is_header_data_code(batch: ShredBatch)
    ensures
        ({
            let all = broadcast_models(batch);
            let n = batch.data_shreds@.len();
            &&& all.len() == 1 + n + batch.code_shreds@.len()
            &&& all[0] == MessageModel::ShredBatchHeader(batch.header.model())
            &&& forall|i: int|
                0 <= i < n ==> all[1 + i] == MessageModel::Shred(
                    MerkleShredModel::Data((#[trigger] batch.data_shreds@[i]).model()),
                )
            &&& forall|i: int|
                0 <= i < batch.code_shreds@.len() ==> all[1 + n + i] == MessageModel::Shred(
                    MerkleShredModel::Code((#[trigger] batch.code_shreds@[i]).model()),
                )
        }),
{
}

/// A message goes out exactly if it can be written down.
pub proof fn writable_messages_go_out(messages: Seq<MessageModel>, i: int)
    requires
        0 <= i < messages.len(),
    ensures
        packets_of(messages).len() <= messages.len(),
        message_fits(messages[i]) ==> packets_of(messages).contains(
            payload_of(message_bytes(messages[i])),
        ),
        forall|p: Seq<u8>| #[trigger]
            packets_of(messages).contains(p) ==> exists|k: int|
                0 <= k < messages.len() && message_fits(#[trigger] messages[k]) && p == payload_of(
                    message_bytes(messages[k]),
                ),
    decreases messages.len(),
{
    let front = messages.drop_last();
    let before = packets_of(front);
    let all = packets_of(messages);
    if front.len() > 0 {
        writable_messages_go_out(
            front,
            if i < front.len() {
                i
            } else {
                0
            },
        );
    }
    if message_fits(messages[i]) {
        let p = payload_of(message_bytes(messages[i]));
        if i < front.len() {
            assert(front[i] == messages[i]);
            let k = choose|k: int| 0 <= k < before.len() && before[k] == p;
            assert(all[k] == p);
        } else {
            assert(all[before.len() as int] == p);
        }
    }
    assert forall|p: Seq<u8>| #[trigger] all.contains(p) implies exists|k: int|
        0 <= k < messages.len() && message_fits(#[trigger] messages[k]) && p == payload_of(
            message_bytes(messages[k]),
        ) by {
        let at = choose|at: int| 0 <= at < all.len() && all[at] == p;
        if at < before.len() {
            assert(before[at] == p);
            assert(before.contains(p));
            let k = choose|k: int|
                0 <= k < front.len() && message_fits(#[trigger] front[k]) && p == payload_of(
                    message_bytes(front[k]),
                );
            assert(messages[k] == front[k]);
        } else {
            assert(message_fits(messages[messages.len() - 1]));
        }
    }
}

} // verus!
