//! Messages between nodes: shreds, batch headers and repair traffic.

use crate::bytes::lemma_le_bytes_len;
use crate::codec::{
    encodes, from_slice, items_layout, lemma_byte_items, misreading, models, Codec, CodecError,
    Fault,
};
use crate::digest::Digest;
use crate::merkle::MerkleProof;
use crate::storage::error::codec_error_text;
use crate::turbine::compression::{compress, decompress, openable, opened, tells_why};
use crate::turbine::error::{turbine_error_text, TurbineError};
use crate::turbine::merkle_shred::{HeaderModel, MerkleShred, MerkleShredModel, ShredBatchHeader};
use crate::zstd_frames::{payload_of, payload_stands_for_its_data};
use vstd::prelude::*;
use vstd::slice::slice_subrange;

verus! {

/// The most bytes that one UDP packet carries.
pub const MAX_UDP_PACKET: usize = 65507;

/// Maximum number of shreds accepted from a single `BatchRepairResponse` packet.
/// Prevents one packet from flooding the channel with unbounded channel sends.
pub const MAX_BATCH_RESPONSE_SHREDS: usize = 64;

/// Bytes of a batch response besides its shreds: compression tag (1), message tag (1), slot
/// (8), count (4).
pub const BATCH_OVERHEAD: usize = 14;

#[derive(Clone, Debug, PartialEq, Eq)]
pub enum RepairRequest {
    Shred { slot: u64, index: u32 },
    ShredBatch { slot: u64, indices: Vec<u32> },
    HighestShred { slot: u64 },
    Orphan { slot: u64 },
    BatchHeader { slot: u64 },
}

#[derive(Clone, Debug, PartialEq, Eq)]
pub struct BatchRepairResponse {
    pub slot: u64,
    pub shreds: Vec<MerkleShred>,
}

/// What a repair request stands for.
pub enum RepairRequestModel {
    Shred(u64, u32),
    ShredBatch(u64, Seq<u32>),
    HighestShred(u64),
    Orphan(u64),
    BatchHeader(u64),
}

/// Slot and index of a request for one shred.
pub type ShredPlace = (u64, u32);

/// Slot and indices of a request for several shreds.
pub type ShredPlaces = (u64, Vec<u32>);

/// Numbers in a list stand for themselves.
pub proof fn lemma_u32_model(items: Seq<u32>)
    ensures
        models::<u32>(items) == items,
{
    assert(models::<u32>(items) =~= items);
}

impl RepairRequestModel {
    pub open spec fn tag(self) -> u8 {
        match self {
            RepairRequestModel::Shred(..) => 0,
            RepairRequestModel::ShredBatch(..) => 1,
            RepairRequestModel::HighestShred(..) => 2,
            RepairRequestModel::Orphan(..) => 3,
            RepairRequestModel::BatchHeader(..) => 4,
        }
    }

    pub open spec fn body(self) -> Seq<u8> {
        match self {
            RepairRequestModel::Shred(slot, index) => <ShredPlace as Codec>::layout((slot, index)),
            RepairRequestModel::ShredBatch(slot, indices) => <ShredPlaces as Codec>::layout(
                (slot, indices),
            ),
            RepairRequestModel::HighestShred(slot) => u64::layout(slot),
            RepairRequestModel::Orphan(slot) => u64::layout(slot),
            RepairRequestModel::BatchHeader(slot) => u64::layout(slot),
        }
    }
}

impl Codec for RepairRequest {
    type M = RepairRequestModel;

    open spec fn model(&self) -> RepairRequestModel {
        match *self {
            RepairRequest::Shred { slot, index } => RepairRequestModel::Shred(slot, index),
            RepairRequest::ShredBatch { slot, indices } => RepairRequestModel::ShredBatch(
                slot,
                indices@,
            ),
            RepairRequest::HighestShred { slot } => RepairRequestModel::HighestShred(slot),
            RepairRequest::Orphan { slot } => RepairRequestModel::Orphan(slot),
            RepairRequest::BatchHeader { slot } => RepairRequestModel::BatchHeader(slot),
        }
    }

    open spec fn well_formed(&self) -> bool {
        true
    }

    open spec fn layout(m: RepairRequestModel) -> Seq<u8> {
        seq![m.tag()] + m.body()
    }

    open spec fn fits(m: RepairRequestModel) -> bool {
        m matches RepairRequestModel::ShredBatch(slot, indices) ==> <ShredPlaces as Codec>::fits(
            (slot, indices),
        )
    }

    open spec fn fault(bytes: Seq<u8>) -> Fault {
        let tail = bytes.drop_first();
        if bytes.len() == 0 {
            Fault::Short
        } else if bytes[0] == 0 {
            <ShredPlace as Codec>::fault(tail)
        } else if bytes[0] == 1 {
            <ShredPlaces as Codec>::fault(tail)
        } else if bytes[0] == 2 {
            u64::fault(tail)
        } else if bytes[0] == 3 {
            u64::fault(tail)
        } else if bytes[0] == 4 {
            u64::fault(tail)
        } else {
            Fault::Variant(bytes[0])
        }
    }

    proof fn prefix_free(a: RepairRequestModel, b: RepairRequestModel, s: Seq<u8>, t: Seq<u8>) {
        let x = Self::layout(a) + s;
        let y = Self::layout(b) + t;
        assert(x[0] == a.tag());
        assert(y[0] == b.tag());
        assert(x.drop_first() =~= a.body() + s);
        assert(y.drop_first() =~= b.body() + t);
        match (a, b) {
            (RepairRequestModel::Shred(p, i), RepairRequestModel::Shred(q, j)) => {
                <ShredPlace as Codec>::prefix_free((p, i), (q, j), s, t);
            },
            (RepairRequestModel::ShredBatch(p, i), RepairRequestModel::ShredBatch(q, j)) => {
                <ShredPlaces as Codec>::prefix_free((p, i), (q, j), s, t);
            },
            (RepairRequestModel::HighestShred(p), RepairRequestModel::HighestShred(q)) => {
                u64::prefix_free(p, q, s, t);
            },
            (RepairRequestModel::Orphan(p), RepairRequestModel::Orphan(q)) => {
                u64::prefix_free(p, q, s, t);
            },
            (RepairRequestModel::BatchHeader(p), RepairRequestModel::BatchHeader(q)) => {
                u64::prefix_free(p, q, s, t);
            },
            _ => {},
        }
    }

    fn encode(&self, out: &mut Vec<u8>) -> (ok: bool) {
        let ok: bool;
        match self {
            RepairRequest::Shred { slot, index } => {
                out.push(0);
                let _ = slot.encode(out);
                ok = index.encode(out);
            },
            RepairRequest::ShredBatch { slot, indices } => {
                proof {
                    lemma_u32_model(indices@);
                }
                out.push(1);
                let _ = slot.encode(out);
                ok = indices.encode(out);
            },
            RepairRequest::HighestShred { slot } => {
                out.push(2);
                ok = slot.encode(out);
            },
            RepairRequest::Orphan { slot } => {
                out.push(3);
                ok = slot.encode(out);
            },
            RepairRequest::BatchHeader { slot } => {
                out.push(4);
                ok = slot.encode(out);
            },
        }
        assert(ok ==> out@ =~= old(out)@ + Self::layout(self.model()));
        ok
    }

    fn decode<'a>(input: &'a [u8]) -> (r: Result<(Self, &'a [u8]), Fault>) {
        let len: usize = input.len();
        if len == 0 {
            assert forall|m: RepairRequestModel, rest: Seq<u8>| Self::fits(m) implies input@
                != #[trigger] (Self::layout(m) + rest) by {
                assert((Self::layout(m) + rest).len() > 0);
            }
            return Err(Fault::Short);
        }
        let tag: u8 = input[0];
        let tail = slice_subrange(input, 1, len);
        assert(input@ =~= seq![tag] + tail@);
        let r: Result<(Self, &'a [u8]), Fault> = if tag == 0 {
            match <ShredPlace as Codec>::decode(tail) {
                Ok(((slot, index), rest)) => Ok((RepairRequest::Shred { slot, index }, rest)),
                Err(f) => Err(f),
            }
        } else if tag == 1 {
            match <ShredPlaces as Codec>::decode(tail) {
                Ok(((slot, indices), rest)) => {
                    proof {
                        lemma_u32_model(indices@);
                    }
                    Ok((RepairRequest::ShredBatch { slot, indices }, rest))
                },
                Err(f) => Err(f),
            }
        } else if tag == 2 {
            match u64::decode(tail) {
                Ok((slot, rest)) => Ok((RepairRequest::HighestShred { slot }, rest)),
                Err(f) => Err(f),
            }
        } else if tag == 3 {
            match u64::decode(tail) {
                Ok((slot, rest)) => Ok((RepairRequest::Orphan { slot }, rest)),
                Err(f) => Err(f),
            }
        } else if tag == 4 {
            match u64::decode(tail) {
                Ok((slot, rest)) => Ok((RepairRequest::BatchHeader { slot }, rest)),
                Err(f) => Err(f),
            }
        } else {
            Err(Fault::Variant(tag))
        };
        proof {
            if r is Ok {
                assert(tail@ == (r->Ok_0).0.model().body() + (r->Ok_0).1@);
                assert(input@ =~= Self::layout((r->Ok_0).0.model()) + (r->Ok_0).1@);
            } else {
                assert forall|m: RepairRequestModel, rest: Seq<u8>| Self::fits(m) implies input@
                    != #[trigger] (Self::layout(m) + rest) by {
                    let y = Self::layout(m) + rest;
                    if input@ == y {
                        assert(y[0] == m.tag());
                        assert(y.drop_first() =~= m.body() + rest);
                        assert(tail@ =~= y.drop_first());
                    }
                }
            }
        }
        r
    }
}

/// The parts of a batch response in the order of its layout.
pub type BatchFields = (u64, Vec<MerkleShred>);

impl Codec for BatchRepairResponse {
    type M = (u64, Seq<MerkleShredModel>);

    open spec fn model(&self) -> Self::M {
        (self.slot, self.shreds.model())
    }

    open spec fn well_formed(&self) -> bool {
        self.shreds.well_formed()
    }

    open spec fn layout(m: Self::M) -> Seq<u8> {
        <BatchFields as Codec>::layout(m)
    }

    open spec fn fits(m: Self::M) -> bool {
        <BatchFields as Codec>::fits(m)
    }

    open spec fn fault(bytes: Seq<u8>) -> Fault {
        <BatchFields as Codec>::fault(bytes)
    }

    proof fn prefix_free(a: Self::M, b: Self::M, s: Seq<u8>, t: Seq<u8>) {
        <BatchFields as Codec>::prefix_free(a, b, s, t);
    }

    fn encode(&self, out: &mut Vec<u8>) -> (ok: bool) {
        let _ = self.slot.encode(out);
        let ok = self.shreds.encode(out);
        assert(ok ==> out@ =~= old(out)@ + Self::layout(self.model()));
        ok
    }

    fn decode<'a>(input: &'a [u8]) -> (r: Result<(Self, &'a [u8]), Fault>) {
        match <BatchFields as Codec>::decode(input) {
            Ok(((slot, shreds), rest)) => Ok((BatchRepairResponse { slot, shreds }, rest)),
            Err(f) => Err(f),
        }
    }
}

// ---------------------------------------------------------------------------
// Sizes on the wire
// ---------------------------------------------------------------------------

proof fn lemma_digest_items_len(items: Seq<Digest>)
    ensures
        items_layout::<Digest>(items).len() == 64 * items.len(),
    decreases items.len(),
{
    if items.len() > 0 {
        lemma_digest_items_len(items.drop_first());
    }
}

proof fn lemma_proof_len(m: <MerkleProof as Codec>::M)
    ensures
        MerkleProof::layout(m).len() == 8 + 64 * m.0.len() + m.1.len(),
{
    lemma_digest_items_len(m.0);
    lemma_byte_items(m.1);
    lemma_le_bytes_len(m.0.len(), 4);
    lemma_le_bytes_len(m.1.len(), 4);
}

/// The bytes that a shred takes on the wire.
pub open spec fn wire_size(m: MerkleShredModel) -> nat {
    MerkleShred::layout(m).len()
}

/// The size of a shred on the wire, from the sizes of its parts, without laying it out.
pub fn shred_wire_size(shred: &MerkleShred) -> (r: usize)
    requires
        shred.well_formed(),
        wire_size(shred.model()) <= usize::MAX,
    ensures
        r == wire_size(shred.model()),
{
    let (shred_bytes_len, proof_part): (usize, &MerkleProof) = match shred {
        MerkleShred::Data(s) => (s.shred_bytes().len(), &s.merkle_proof),
        MerkleShred::Code(s) => (s.shred_bytes().len(), &s.merkle_proof),
    };
    proof {
        lemma_proof_len(proof_part.model());
        assert(wire_size(shred.model()) == 1 + shred_bytes_len + 64 + (8 + 64
            * proof_part.hashes@.len() + proof_part.path@.len()));
    }
    // A 4-byte count and 64 bytes per hash; a 4-byte count and 1 byte per path step.
    let proof_hashes_bytes: usize = 4 + proof_part.hashes.len() * 64;
    let proof_path_bytes: usize = 4 + proof_part.path.len();
    1 + shred_bytes_len + 64 + proof_hashes_bytes + proof_path_bytes
}

/// The bytes that shreds take on the wire together.
pub open spec fn total_size(shreds: Seq<MerkleShred>) -> nat
    decreases shreds.len(),
{
    if shreds.len() == 0 {
        0
    } else {
        total_size(shreds.drop_last()) + wire_size(shreds.last().model())
    }
}

/// The shreds of all batches, one batch behind the other.
pub open spec fn batched(batches: Seq<BatchRepairResponse>) -> Seq<MerkleShred>
    decreases batches.len(),
{
    if batches.len() == 0 {
        Seq::empty()
    } else {
        batched(batches.drop_last()) + batches.last().shreds@
    }
}

/// A shred that no packet of that size can carry.
pub open spec fn oversize(shred: MerkleShred, max_packet_size: nat) -> bool {
    wire_size(shred.model()) + BATCH_OVERHEAD > max_packet_size
}

/// Batches of one slot, each within the packet size, and none with room for the shred
/// that starts the next.
pub open spec fn greedy(batches: Seq<BatchRepairResponse>, slot: u64, max: nat) -> bool {
    &&& forall|i: int|
        0 <= i < batches.len() ==> {
            &&& (#[trigger] batches[i]).slot == slot
            &&& batches[i].shreds@.len() > 0
            &&& BATCH_OVERHEAD + total_size(batches[i].shreds@) <= max
        }
    &&& forall|i: int, j: int|
        0 <= i && j == i + 1 && j < batches.len() ==> BATCH_OVERHEAD + total_size(
            (#[trigger] batches[i]).shreds@,
        ) + wire_size((#[trigger] batches[j]).shreds@[0].model()) > max
}

proof fn lemma_total_push(shreds: Seq<MerkleShred>, s: MerkleShred)
    ensures
        total_size(shreds.push(s)) == total_size(shreds) + wire_size(s.model()),
{
    assert(shreds.push(s).drop_last() =~= shreds);
}

proof fn lemma_batched_push(batches: Seq<BatchRepairResponse>, b: BatchRepairResponse)
    ensures
        batched(batches.push(b)) == batched(batches) + b.shreds@,
{
    assert(batches.push(b).drop_last() =~= batches);
}

/// The layout of several shreds is as long as the shreds are together.
proof fn lemma_items_len(shreds: Seq<MerkleShred>)
    ensures
        items_layout::<MerkleShred>(models(shreds)).len() == total_size(shreds),
    decreases shreds.len(),
{
    if shreds.len() == 0 {
        assert(models(shreds) =~= Seq::empty());
    } else {
        let front = shreds.drop_last();
        lemma_items_len(front);
        assert(models(shreds) =~= models(front).push(shreds.last().model()));
        crate::codec::lemma_items_push::<MerkleShred>(models(front), shreds.last().model());
    }
}

/// A batch response takes at most as many bytes on the wire as `pack` reckons: that many if
/// it goes out raw, and fewer if it is compressed.
pub proof fn batch_message_size(batch: BatchRepairResponse)
    ensures
        ({
            let raw = message_bytes(MessageModel::BatchRepairResponse(batch.model()));
            &&& 1 + raw.len() == BATCH_OVERHEAD + total_size(batch.shreds@)
            &&& payload_of(raw).len() <= BATCH_OVERHEAD + total_size(batch.shreds@)
        }),
{
    lemma_items_len(batch.shreds@);
    lemma_le_bytes_len(batch.slot as nat, 8);
    lemma_le_bytes_len(batch.shreds@.len(), 4);
    payload_stands_for_its_data(
        message_bytes(MessageModel::BatchRepairResponse(batch.model())),
    );
}

/// A batch that goes out in one packet: its wire form is no longer than that, and there is
/// one, unless the packet is larger than a count of 32 bits can tell.
pub open spec fn sendable(batch: BatchRepairResponse, max_packet_size: nat) -> bool {
    let m = MessageModel::BatchRepairResponse(batch.model());
    &&& payload_of(message_bytes(m)).len() <= max_packet_size
    &&& max_packet_size <= u32::MAX ==> message_fits(m)
}

/// The parts of what is short are short enough for their counts.
proof fn lemma_short_fits(shreds: Seq<MerkleShred>)
    requires
        forall|i: int| 0 <= i < shreds.len() ==> (#[trigger] shreds[i]).well_formed(),
        total_size(shreds) <= u32::MAX,
    ensures
        shreds.len() <= total_size(shreds),
        forall|i: int| 0 <= i < shreds.len() ==> MerkleShred::fits((#[trigger] shreds[i]).model()),
    decreases shreds.len(),
{
    if shreds.len() > 0 {
        let front = shreds.drop_last();
        assert forall|i: int| 0 <= i < front.len() implies (#[trigger] front[i]).well_formed() by {
            assert(front[i] == shreds[i]);
        }
        lemma_short_fits(front);
        let last = shreds[shreds.len() - 1];
        match last {
            MerkleShred::Data(s) => {
                lemma_proof_len(s.merkle_proof.model());
            },
            MerkleShred::Code(s) => {
                lemma_proof_len(s.merkle_proof.model());
            },
        }
        assert forall|i: int| 0 <= i < shreds.len() implies MerkleShred::fits(
            (#[trigger] shreds[i]).model(),
        ) by {
            if i < front.len() {
                assert(front[i] == shreds[i]);
            }
        }
    }
}

/// The shreds of each batch are among those of all.
proof fn lemma_batched_has(batches: Seq<BatchRepairResponse>, i: int, j: int)
    requires
        0 <= i < batches.len(),
        0 <= j < batches[i].shreds@.len(),
    ensures
        batched(batches).contains(batches[i].shreds@[j]),
    decreases batches.len(),
{
    let front = batched(batches.drop_last());
    let all = batched(batches);
    if i < batches.len() - 1 {
        lemma_batched_has(batches.drop_last(), i, j);
        let k = choose|k: int| 0 <= k < front.len() && front[k] == batches[i].shreds@[j];
        assert(all[k] == front[k]);
    } else {
        assert(all[front.len() + j] == batches[i].shreds@[j]);
    }
}

proof fn lemma_sendable(
    batches: Seq<BatchRepairResponse>,
    shreds: Seq<MerkleShred>,
    slot: u64,
    max: nat,
    i: int,
)
    requires
        batched(batches) == shreds,
        greedy(batches, slot, max),
        forall|k: int| 0 <= k < shreds.len() ==> (#[trigger] shreds[k]).well_formed(),
        0 <= i < batches.len(),
    ensures
        sendable(batches[i], max),
{
    let b = batches[i];
    batch_message_size(b);
    if max <= u32::MAX {
        assert forall|j: int| 0 <= j < b.shreds@.len() implies (
        #[trigger] b.shreds@[j]).well_formed() by {
            lemma_batched_has(batches, i, j);
        }
        lemma_short_fits(b.shreds@);
        assert forall|j: int| 0 <= j < models(b.shreds@).len() implies MerkleShred::fits(
            #[trigger] models(b.shreds@)[j],
        ) by {
            assert(MerkleShred::fits(b.shreds@[j].model()));
        }
    }
}

impl BatchRepairResponse {
    /// Greedily pack shreds into UDP-safe chunks.
    ///
    /// Returns an error if a single shred exceeds `max_packet_size`: such a shred can
    /// never fit and producing an oversize batch would corrupt the wire.
    pub fn pack(slot: u64, shreds: Vec<MerkleShred>, max_packet_size: usize) -> (r: Result<
        Vec<BatchRepairResponse>,
        TurbineError,
    >)
        requires
            shreds.well_formed(),
            forall|i: int|
                0 <= i < shreds@.len() ==> wire_size((#[trigger] shreds@[i]).model())
                    + BATCH_OVERHEAD <= usize::MAX,
        ensures
            match r {
                Ok(batches) => {
                    &&& batched(batches@) == shreds@
                    &&& greedy(batches@, slot, max_packet_size as nat)
                    &&& forall|i: int|
                        0 <= i < batches@.len() ==> sendable(
                            #[trigger] batches@[i],
                            max_packet_size as nat,
                        )
                    &&& forall|i: int|
                        0 <= i < shreds@.len() ==> !oversize(
                            #[trigger] shreds@[i],
                            max_packet_size as nat,
                        )
                },
                Err(e) => exists|i: int|
                    #![trigger shreds@[i]]
                    {
                        &&& 0 <= i < shreds@.len()
                        &&& oversize(shreds@[i], max_packet_size as nat)
                        &&& forall|j: int|
                            0 <= j < i ==> !oversize(
                                #[trigger] shreds@[j],
                                max_packet_size as nat,
                            )
                        &&& e == TurbineError::ShredTooLarge {
                            size: (wire_size(shreds@[i].model()) + BATCH_OVERHEAD) as usize,
                            max_size: max_packet_size,
                        }
                    },
            },
    {
        let ghost all = shreds@;
        let mut batches: Vec<BatchRepairResponse> = Vec::new();
        let mut current: Vec<MerkleShred> = Vec::new();
        let mut current_size: usize = BATCH_OVERHEAD;
        assert(all.take(0) =~= Seq::empty());
        assert(batched(batches@) + current@ =~= all.take(0));
        for shred in it: shreds
            invariant
                it.seq() == all,
                batched(batches@) + current@ == all.take(it.index() as int),
                current_size == BATCH_OVERHEAD + total_size(current@),
                it.index() > 0 ==> current@.len() > 0 && current_size <= max_packet_size,
                it.index() == 0 ==> batches@.len() == 0 && current@.len() == 0,
                greedy(batches@, slot, max_packet_size as nat),
                batches@.len() > 0 ==> BATCH_OVERHEAD + total_size(batches@.last().shreds@)
                    + wire_size(current@[0].model()) > max_packet_size,
                forall|i: int|
                    0 <= i < all.len() ==> (#[trigger] all[i]).well_formed() && wire_size(
                        all[i].model(),
                    ) + BATCH_OVERHEAD <= usize::MAX,
                forall|i: int|
                    0 <= i < it.index() ==> !oversize(#[trigger] all[i], max_packet_size as nat),
        {
            let ghost k = it.index() as int;
            assert(shred == all[k]);
            let shred_size: usize = shred_wire_size(&shred);
            let room: usize = if max_packet_size >= BATCH_OVERHEAD {
                max_packet_size - BATCH_OVERHEAD
            } else {
                0
            };
            // A shred that exceeds the packet size can never be packed.
            if shred_size > room {
                return Err(
                    TurbineError::ShredTooLarge {
                        size: shred_size + BATCH_OVERHEAD,
                        max_size: max_packet_size,
                    },
                );
            }
            if current.len() > 0 && shred_size > max_packet_size - current_size {
                let ghost done = batches@;
                let ghost full = current@;
                let batch = BatchRepairResponse { slot, shreds: current };
                proof {
                    lemma_batched_push(done, batch);
                }
                batches.push(batch);
                current = Vec::new();
                current_size = BATCH_OVERHEAD;
                assert(batched(batches@) + current@ =~= batched(done) + full);
                assert(batches@.last().shreds@ == full);
            }
            proof {
                lemma_total_push(current@, shred);
                assert(all.take(k + 1) =~= all.take(k).push(shred));
                assert(batched(batches@) + current@.push(shred) =~= (batched(batches@)
                    + current@).push(shred));
            }
            current_size = current_size + shred_size;
            current.push(shred);
        }
        assert(all.take(all.len() as int) =~= all);
        if current.len() > 0 {
            let ghost done = batches@;
            let batch = BatchRepairResponse { slot, shreds: current };
            proof {
                lemma_batched_push(done, batch);
            }
            batches.push(batch);
        } else {
            assert(batched(batches@) + current@ =~= batched(batches@));
        }
        assert forall|i: int| 0 <= i < batches@.len() implies sendable(
            #[trigger] batches@[i],
            max_packet_size as nat,
        ) by {
            lemma_sendable(batches@, all, slot, max_packet_size as nat, i);
        }
        Ok(batches)
    }
}

// ---------------------------------------------------------------------------
// Messages
// ---------------------------------------------------------------------------

#[derive(Clone, Debug, PartialEq, Eq)]
pub enum TurbineMessage {
    ShredBatchHeader(ShredBatchHeader),
    Shred(MerkleShred),
    RepairRequest(RepairRequest),
    RepairResponse(MerkleShred),
    BatchRepairResponse(BatchRepairResponse),
}

/// What a message stands for.
pub enum MessageModel {
    ShredBatchHeader(HeaderModel),
    Shred(MerkleShredModel),
    RepairRequest(RepairRequestModel),
    RepairResponse(MerkleShredModel),
    BatchRepairResponse(<BatchRepairResponse as Codec>::M),
}

/// The fields of a header in order. The signature fills what the others leave.
pub open spec fn header_layout(h: HeaderModel) -> Seq<u8> {
    u64::layout(h.slot) + h.leader@ + h.merkle_root@ + h.signature + u32::layout(h.num_data_shreds)
        + u32::layout(h.num_code_shreds)
}

pub open spec fn message_tag(m: MessageModel) -> u8 {
    match m {
        MessageModel::ShredBatchHeader(_) => 0,
        MessageModel::Shred(_) => 1,
        MessageModel::RepairRequest(_) => 2,
        MessageModel::RepairResponse(_) => 3,
        MessageModel::BatchRepairResponse(_) => 4,
    }
}

pub open spec fn message_body(m: MessageModel) -> Seq<u8> {
    match m {
        MessageModel::ShredBatchHeader(h) => header_layout(h),
        MessageModel::Shred(s) => MerkleShred::layout(s),
        MessageModel::RepairRequest(q) => RepairRequest::layout(q),
        MessageModel::RepairResponse(s) => MerkleShred::layout(s),
        MessageModel::BatchRepairResponse(b) => BatchRepairResponse::layout(b),
    }
}

/// Every variable-length part is short enough for its 32-bit count.
pub open spec fn message_fits(m: MessageModel) -> bool {
    match m {
        MessageModel::ShredBatchHeader(_) => true,
        MessageModel::Shred(s) => MerkleShred::fits(s),
        MessageModel::RepairRequest(q) => RepairRequest::fits(q),
        MessageModel::RepairResponse(s) => MerkleShred::fits(s),
        MessageModel::BatchRepairResponse(b) => BatchRepairResponse::fits(b),
    }
}

/// The bytes of a message before compression.
pub open spec fn message_bytes(m: MessageModel) -> Seq<u8> {
    seq![message_tag(m)] + message_body(m)
}

/// The bytes `raw` are those of the message `m`.
pub open spec fn is_message(raw: Seq<u8>, m: MessageModel) -> bool {
    message_fits(m) && raw == message_bytes(m)
}

/// Why bytes are not those of a message.
pub open spec fn message_refusal(raw: Seq<u8>) -> CodecError {
    let tail = raw.drop_first();
    if raw.len() == 0 || raw[0] == 0 {
        CodecError::Malformed(Fault::Short)
    } else if raw[0] == 1 || raw[0] == 3 {
        misreading::<MerkleShred>(tail)
    } else if raw[0] == 2 {
        misreading::<RepairRequest>(tail)
    } else if raw[0] == 4 {
        misreading::<BatchRepairResponse>(tail)
    } else {
        CodecError::Malformed(Fault::Variant(raw[0]))
    }
}

proof fn lemma_header_parts(h: HeaderModel)
    ensures
        ({
            let s = header_layout(h);
            let n = s.len() as int;
            &&& n == 144 + h.signature.len()
            &&& s.subrange(0, 8) == u64::layout(h.slot)
            &&& s.subrange(8, 72) == h.leader@
            &&& s.subrange(72, 136) == h.merkle_root@
            &&& s.subrange(136, n - 8) == h.signature
            &&& s.subrange(n - 8, n - 4) == u32::layout(h.num_data_shreds)
            &&& s.subrange(n - 4, n) == u32::layout(h.num_code_shreds)
        }),
{
    let s = header_layout(h);
    let n = s.len() as int;
    lemma_le_bytes_len(h.slot as nat, 8);
    lemma_le_bytes_len(h.num_data_shreds as nat, 4);
    lemma_le_bytes_len(h.num_code_shreds as nat, 4);
    assert(h.leader@.len() == 64);
    assert(h.merkle_root@.len() == 64);
    assert(s.subrange(0, 8) =~= u64::layout(h.slot));
    assert(s.subrange(8, 72) =~= h.leader@);
    assert(s.subrange(72, 136) =~= h.merkle_root@);
    assert(s.subrange(136, n - 8) =~= h.signature);
    assert(s.subrange(n - 8, n - 4) =~= u32::layout(h.num_data_shreds));
    assert(s.subrange(n - 4, n) =~= u32::layout(h.num_code_shreds));
}

proof fn lemma_header_injective(a: HeaderModel, b: HeaderModel)
    requires
        header_layout(a) == header_layout(b),
    ensures
        a == b,
{
    lemma_header_parts(a);
    lemma_header_parts(b);
    crate::codec::layout_is_injective::<u64>(a.slot, b.slot);
    crate::digest::lemma_digest_ext(a.leader, b.leader);
    crate::digest::lemma_digest_ext(a.merkle_root, b.merkle_root);
    crate::codec::layout_is_injective::<u32>(a.num_data_shreds, b.num_data_shreds);
    crate::codec::layout_is_injective::<u32>(a.num_code_shreds, b.num_code_shreds);
}

/// No two messages have the same bytes.
pub proof fn message_bytes_injective(a: MessageModel, b: MessageModel)
    requires
        message_fits(a),
        message_fits(b),
        message_bytes(a) == message_bytes(b),
    ensures
        a == b,
{
    let x = message_bytes(a);
    let y = message_bytes(b);
    assert(x[0] == message_tag(a) && y[0] == message_tag(b));
    assert(x.drop_first() =~= message_body(a));
    assert(y.drop_first() =~= message_body(b));
    match (a, b) {
        (MessageModel::ShredBatchHeader(v), MessageModel::ShredBatchHeader(w)) => {
            lemma_header_injective(v, w);
        },
        (MessageModel::Shred(v), MessageModel::Shred(w)) => {
            crate::codec::layout_is_injective::<MerkleShred>(v, w);
        },
        (MessageModel::RepairRequest(v), MessageModel::RepairRequest(w)) => {
            crate::codec::layout_is_injective::<RepairRequest>(v, w);
        },
        (MessageModel::RepairResponse(v), MessageModel::RepairResponse(w)) => {
            crate::codec::layout_is_injective::<MerkleShred>(v, w);
        },
        (MessageModel::BatchRepairResponse(v), MessageModel::BatchRepairResponse(w)) => {
            crate::codec::layout_is_injective::<BatchRepairResponse>(v, w);
        },
        _ => {},
    }
}

fn encode_header(h: &ShredBatchHeader, out: &mut Vec<u8>)
    ensures
        final(out)@ == old(out)@ + header_layout(h.model()),
{
    let _ = h.slot.encode(out);
    let _ = h.leader.encode(out);
    let _ = h.merkle_root.encode(out);
    let mut signature: Vec<u8> = vstd::slice::slice_to_vec(h.signature.as_slice());
    out.append(&mut signature);
    let _ = h.num_data_shreds.encode(out);
    let _ = h.num_code_shreds.encode(out);
    assert(out@ =~= old(out)@ + header_layout(h.model()));
}

fn decode_header(bytes: &[u8]) -> (r: Option<ShredBatchHeader>)
    ensures
        match r {
            Some(h) => bytes@ == header_layout(h.model()),
            None => forall|h: HeaderModel| bytes@ != #[trigger] header_layout(h),
        },
{
    let len: usize = bytes.len();
    if len < 144 {
        assert forall|h: HeaderModel| bytes@ != #[trigger] header_layout(h) by {
            lemma_header_parts(h);
        }
        return None;
    }
    let slot = from_slice::<u64>(slice_subrange(bytes, 0, 8));
    let num_data = from_slice::<u32>(slice_subrange(bytes, len - 8, len - 4));
    let num_code = from_slice::<u32>(slice_subrange(bytes, len - 4, len));
    match (slot, num_data, num_code) {
        (Ok(slot), Ok(num_data_shreds), Ok(num_code_shreds)) => {
            let h = ShredBatchHeader {
                slot,
                leader: Digest::from_slice(bytes, 8),
                merkle_root: Digest::from_slice(bytes, 72),
                signature: vstd::slice::slice_to_vec(slice_subrange(bytes, 136, len - 8)),
                num_data_shreds,
                num_code_shreds,
            };
            assert(bytes@ =~= bytes@.subrange(0, 8) + bytes@.subrange(8, 72) + bytes@.subrange(
                72,
                136,
            ) + bytes@.subrange(136, len - 8) + bytes@.subrange(len - 8, len - 4) + bytes@.subrange(
                len - 4,
                len as int,
            ));
            Some(h)
        },
        _ => {
            assert forall|h: HeaderModel| bytes@ != #[trigger] header_layout(h) by {
                lemma_header_parts(h);
                if bytes@ == header_layout(h) {
                    assert(encodes::<u64>(bytes@.subrange(0, 8), h.slot));
                    assert(encodes::<u32>(bytes@.subrange(len - 8, len - 4), h.num_data_shreds));
                    assert(encodes::<u32>(bytes@.subrange(len - 4, len as int), h.num_code_shreds));
                }
            }
            None
        },
    }
}

impl TurbineMessage {
    pub open spec fn model(&self) -> MessageModel {
        match *self {
            TurbineMessage::ShredBatchHeader(h) => MessageModel::ShredBatchHeader(h.model()),
            TurbineMessage::Shred(s) => MessageModel::Shred(s.model()),
            TurbineMessage::RepairRequest(q) => MessageModel::RepairRequest(q.model()),
            TurbineMessage::RepairResponse(s) => MessageModel::RepairResponse(s.model()),
            TurbineMessage::BatchRepairResponse(b) => MessageModel::BatchRepairResponse(b.model()),
        }
    }

    pub open spec fn well_formed(&self) -> bool {
        match *self {
            TurbineMessage::Shred(s) => s.well_formed(),
            TurbineMessage::RepairResponse(s) => s.well_formed(),
            TurbineMessage::BatchRepairResponse(b) => b.well_formed(),
            _ => true,
        }
    }

    /// The bytes of the message before compression.
    pub fn to_bytes(&self) -> (r: Result<Vec<u8>, CodecError>)
        ensures
            message_fits(self.model()) ==> r is Ok && r->Ok_0@ == message_bytes(self.model()),
            !message_fits(self.model()) ==> r == Err::<Vec<u8>, CodecError>(CodecError::TooLong),
    {
        let mut out: Vec<u8> = Vec::new();
        let ok: bool;
        match self {
            TurbineMessage::ShredBatchHeader(h) => {
                out.push(0);
                encode_header(h, &mut out);
                ok = true;
            },
            TurbineMessage::Shred(s) => {
                out.push(1);
                ok = s.encode(&mut out);
            },
            TurbineMessage::RepairRequest(q) => {
                out.push(2);
                ok = q.encode(&mut out);
            },
            TurbineMessage::RepairResponse(s) => {
                out.push(3);
                ok = s.encode(&mut out);
            },
            TurbineMessage::BatchRepairResponse(b) => {
                out.push(4);
                ok = b.encode(&mut out);
            },
        }
        assert(ok ==> out@ =~= message_bytes(self.model()));
        if ok {
            Ok(out)
        } else {
            Err(CodecError::TooLong)
        }
    }

    /// The message whose bytes before compression are `raw`.
    pub fn from_bytes(raw: &[u8]) -> (r: Result<TurbineMessage, CodecError>)
        ensures
            match r {
                Ok(m) => m.well_formed() && is_message(raw@, m.model()),
                Err(e) => {
                    &&& forall|m: MessageModel| !#[trigger] is_message(raw@, m)
                    &&& e == message_refusal(raw@)
                },
            },
    {
        let len: usize = raw.len();
        if len == 0 {
            assert forall|m: MessageModel| !#[trigger] is_message(raw@, m) by {
                assert(message_bytes(m).len() > 0);
            }
            return Err(CodecError::Malformed(Fault::Short));
        }
        let tag: u8 = raw[0];
        let tail = slice_subrange(raw, 1, len);
        assert(raw@ =~= seq![tag] + tail@);
        let r: Result<TurbineMessage, CodecError> = if tag == 0 {
            match decode_header(tail) {
                Some(h) => Ok(TurbineMessage::ShredBatchHeader(h)),
                None => Err(CodecError::Malformed(Fault::Short)),
            }
        } else if tag == 1 {
            match from_slice::<MerkleShred>(tail) {
                Ok(s) => Ok(TurbineMessage::Shred(s)),
                Err(e) => Err(e),
            }
        } else if tag == 2 {
            match from_slice::<RepairRequest>(tail) {
                Ok(q) => Ok(TurbineMessage::RepairRequest(q)),
                Err(e) => Err(e),
            }
        } else if tag == 3 {
            match from_slice::<MerkleShred>(tail) {
                Ok(s) => Ok(TurbineMessage::RepairResponse(s)),
                Err(e) => Err(e),
            }
        } else if tag == 4 {
            match from_slice::<BatchRepairResponse>(tail) {
                Ok(b) => Ok(TurbineMessage::BatchRepairResponse(b)),
                Err(e) => Err(e),
            }
        } else {
            Err(CodecError::Malformed(Fault::Variant(tag)))
        };
        proof {
            if r is Err {
                assert forall|m: MessageModel| !#[trigger] is_message(raw@, m) by {
                    if is_message(raw@, m) {
                        let y = message_bytes(m);
                        assert(y[0] == message_tag(m));
                        assert(y.drop_first() =~= message_body(m));
                        assert(tail@ =~= y.drop_first());
                        match m {
                            MessageModel::ShredBatchHeader(h) => {},
                            MessageModel::Shred(s) => {
                                assert(encodes::<MerkleShred>(tail@, s));
                            },
                            MessageModel::RepairRequest(q) => {
                                assert(encodes::<RepairRequest>(tail@, q));
                            },
                            MessageModel::RepairResponse(s) => {
                                assert(encodes::<MerkleShred>(tail@, s));
                            },
                            MessageModel::BatchRepairResponse(b) => {
                                assert(encodes::<BatchRepairResponse>(tail@, b));
                            },
                        }
                    }
                }
            }
        }
        r
    }

    /// The message as it goes on the wire, compressed where that pays.
    pub fn serialize_to_bytes(&self) -> (r: Result<Vec<u8>, String>)
        ensures
            if message_fits(self.model()) {
                r matches Ok(out) && out@ == payload_of(message_bytes(self.model()))
            } else {
                r matches Err(text) && text@ == codec_error_text(CodecError::TooLong)
            },
    {
        match self.to_bytes() {
            Ok(raw) => match compress(raw.as_slice()) {
                Ok(out) => Ok(out),
                Err(e) => Err(e.describe()),
            },
            Err(e) => Err(e.describe()),
        }
    }

    /// The message that came off the wire as `bytes`.
    pub fn deserialize_from_bytes(bytes: &[u8]) -> (r: Result<TurbineMessage, String>)
        ensures
            received(bytes@, r),
    {
        let raw: Vec<u8> = match decompress(bytes) {
            Ok(raw) => raw,
            Err(e) => {
                return Err(e.describe());
            },
        };
        let r = match TurbineMessage::from_bytes(raw.as_slice()) {
            Ok(m) => {
                proof {
                    assert(is_message(raw@, m.model()));
                    message_bytes_injective(
                        m.model(),
                        choose|x: MessageModel| #[trigger] is_message(raw@, x),
                    );
                }
                Ok(m)
            },
            Err(e) => Err(e.describe()),
        };
        assert forall|m: MessageModel| #[trigger]
            message_fits(m) && bytes@ == payload_of(message_bytes(m)) && openable(
                message_bytes(m),
            ) implies arrival(bytes@) == Some(m) by {
            assert(is_message(raw@, m));
            message_bytes_injective(m, choose|x: MessageModel| #[trigger] is_message(raw@, x));
        }
        r
    }
}

/// The message that stands on the wire as `bytes`, if any does.
pub open spec fn arrival(bytes: Seq<u8>) -> Option<MessageModel> {
    match opened(bytes) {
        Some(raw) => if exists|m: MessageModel| #[trigger] is_message(raw, m) {
            Some(choose|m: MessageModel| #[trigger] is_message(raw, m))
        } else {
            None
        },
        None => None,
    }
}

/// What is read off the wire. The wire form of a message stands for that message, as long
/// as it can be opened.
pub open spec fn received(bytes: Seq<u8>, r: Result<TurbineMessage, String>) -> bool {
    &&& match arrival(bytes) {
        Some(m) => r matches Ok(msg) && msg.well_formed() && msg.model() == m,
        None => r matches Err(text) && match opened(bytes) {
            Some(raw) => text@ == codec_error_text(message_refusal(raw)),
            None => exists|e: TurbineError| #[trigger]
                tells_why(bytes, e) && text@ == turbine_error_text(e),
        },
    }
    &&& stands_for_itself(bytes)
}

/// If the bytes are the wire form of a message that can be opened, that is the message that
/// arrives.
pub open spec fn stands_for_itself(bytes: Seq<u8>) -> bool {
    forall|m: MessageModel| #[trigger]
        message_fits(m) && bytes == payload_of(message_bytes(m)) && openable(message_bytes(m))
            ==> arrival(bytes) == Some(m)
}

/// A message that arrives in its own wire form comes back, as long as it can be opened.
pub proof fn message_comes_back(m: MessageModel, r: Result<TurbineMessage, String>)
    requires
        message_fits(m),
        openable(message_bytes(m)),
        received(payload_of(message_bytes(m)), r),
    ensures
        r matches Ok(msg) && msg.well_formed() && msg.model() == m,
{
}

/// A batch repair response is written field by field, in this order.
pub proof fn batch_repair_response_is_written_in_order(x: BatchRepairResponse)
    ensures
        <BatchRepairResponse as Codec>::layout(x.model()) == <u64 as Codec>::layout(x.slot.model())
            + <Vec<MerkleShred> as Codec>::layout(x.shreds.model()),
{
}

/// A request begins with the number of its kind, in the order in which they are declared. The slot
/// follows, and then the shreds that are asked for.
pub proof fn repair_requests_are_numbered(x: RepairRequest)
    ensures
        RepairRequest::layout(x.model()) == match x {
            RepairRequest::Shred { slot, index } => seq![0u8] + u64::layout(slot) + u32::layout(
                index,
            ),
            RepairRequest::ShredBatch { slot, indices } => seq![1u8] + u64::layout(slot) + <Vec<
                u32,
            > as Codec>::layout(indices.model()),
            RepairRequest::HighestShred { slot } => seq![2u8] + u64::layout(slot),
            RepairRequest::Orphan { slot } => seq![3u8] + u64::layout(slot),
            RepairRequest::BatchHeader { slot } => seq![4u8] + u64::layout(slot),
        },
{
    match x {
        RepairRequest::ShredBatch { slot, indices } => {
            lemma_u32_model(indices@);
        },
        _ => {},
    }
}

/// A message begins with the number of its kind, in the order in which they are declared. What it
/// holds follows.
pub proof fn turbine_messages_are_numbered(m: MessageModel)
    ensures
        message_bytes(m) == match m {
            MessageModel::ShredBatchHeader(h) => seq![0u8] + u64::layout(h.slot) + h.leader@
                + h.merkle_root@ + h.signature + u32::layout(h.num_data_shreds) + u32::layout(
                h.num_code_shreds,
            ),
            MessageModel::Shred(s) => seq![1u8] + MerkleShred::layout(s),
            MessageModel::RepairRequest(q) => seq![2u8] + RepairRequest::layout(q),
            MessageModel::RepairResponse(s) => seq![3u8] + MerkleShred::layout(s),
            MessageModel::BatchRepairResponse(b) => seq![4u8] + BatchRepairResponse::layout(b),
        },
{
}

/// Shreds that are packed keep their order: those of each batch follow those of the batches before.
pub proof fn batches_follow_each_other(
    batches: Seq<BatchRepairResponse>,
    batch: BatchRepairResponse,
)
    ensures
        batched(Seq::empty()) == Seq::<MerkleShred>::empty(),
        batched(batches.push(batch)) == batched(batches) + batch.shreds@,
{
    assert(batches.push(batch).drop_last() =~= batches);
}

/// Every packed batch is of the slot, has a shred, and goes into one packet as a message. It is as
/// full as may be: with the first shred of the next batch it would no longer go in uncompressed.
pub proof fn packed_batches_are_as_full_as_may_be(
    batches: Seq<BatchRepairResponse>,
    slot: u64,
    max: nat,
    i: int,
    with_next: BatchRepairResponse,
)
    requires
        greedy(batches, slot, max),
        0 <= i < batches.len(),
        i + 1 < batches.len() ==> with_next.shreds@ == batches[i].shreds@.push(
            batches[i + 1].shreds@[0],
        ),
    ensures
        batches[i].slot == slot,
        batches[i].shreds@.len() > 0,
        payload_of(message_bytes(MessageModel::BatchRepairResponse(batches[i].model()))).len()
            <= max,
        i + 1 < batches.len() ==> 1 + message_bytes(
            MessageModel::BatchRepairResponse(with_next.model()),
        ).len() > max,
{
    batch_message_size(batches[i]);
    if i + 1 < batches.len() {
        batch_message_size(with_next);
        let first = batches[i + 1].shreds@[0];
        assert(with_next.shreds@.drop_last() =~= batches[i].shreds@);
        assert(with_next.shreds@.last() == first);
        assert(total_size(with_next.shreds@) == total_size(batches[i].shreds@) + wire_size(
            first.model(),
        ));
        assert(batches[i].shreds@.len() >= 0 && batches[i + 1].shreds@.len() >= 0);
    }
}

} // verus!
