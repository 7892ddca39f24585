//! Cutting a block into data shreds, with parity shreds for every group of them.

use crate::bytes::lemma_le_bytes_len;
use crate::codec::{lemma_byte_items, lemma_byte_model, to_vec, Codec, CodecError};
use crate::digest::{hashed, Digest};
use crate::ledger::Block;
use crate::merkle::MerkleProof;
use crate::storage::error::codec_error_text;
use crate::storage::shred::{CodeShred, DataShred};
use crate::text::{decimal, push_str, push_u64, push_usize, string};
use crate::turbine::erasure::{
    code_exists, equally_long, lost_shards_come_back, parity_for_rate, part_of, rebuilds,
    rs_parity, shard_bytes, ErasureCoder,
};
use crate::turbine::error::TurbineError;
use crate::turbine::merkle_shred::{
    build_batch_header, MerkleCodeShred, MerkleDataShred, ShredBatchHeader, LAST_SHRED_FLAG,
};
use vstd::prelude::*;
use vstd::slice::{slice_subrange, slice_to_vec};

verus! {

/// Bytes of block data per shred.
pub const MAX_DATA_PER_SHRED: u64 = 1228;

/// Parity shreds per hundred data shreds.
pub const FEC_RATE_PERCENT: u64 = 33;

/// Data shreds per erasure-coded group.
pub const FEC_GROUP_SIZE: usize = 32;

/// All shreds of a block, with their proofs, under a signed header.
#[derive(Debug)]
pub struct ShredBatch {
    pub header: ShredBatchHeader,
    pub data_shreds: Vec<MerkleDataShred>,
    pub code_shreds: Vec<MerkleCodeShred>,
}

/// All shreds of a block before the Merkle tree over them is built: no proofs, no header.
#[derive(Debug)]
pub struct UnsignedBatch {
    pub slot: u64,
    pub leader: Digest,
    pub data_shreds: Vec<MerkleDataShred>,
    pub code_shreds: Vec<MerkleCodeShred>,
}

/// How many shreds `len` bytes are cut into.
pub open spec fn chunk_count(len: nat) -> nat {
    (len + (MAX_DATA_PER_SHRED - 1) as nat) / MAX_DATA_PER_SHRED as nat
}

/// The bytes of the `i`-th shred: a full portion, or what is left.
pub open spec fn chunk(bytes: Seq<u8>, i: int) -> Seq<u8> {
    let end = (i + 1) * MAX_DATA_PER_SHRED;
    bytes.subrange(
        i * MAX_DATA_PER_SHRED,
        if end <= bytes.len() {
            end
        } else {
            bytes.len() as int
        },
    )
}

/// The `i`-th data shred of a block; the last one is flagged.
pub open spec fn data_shred_model(slot: u64, parent_offset: u16, bytes: Seq<u8>, i: int) -> (
<DataShred as Codec>::M) {
    (
        slot,
        (
            i as u32,
            (
                parent_offset,
                (
                    chunk(bytes, i),
                    if i == chunk_count(bytes.len()) - 1 {
                        LAST_SHRED_FLAG
                    } else {
                        0x00u8
                    },
                ),
            ),
        ),
    )
}

/// The data shreds of a block.
pub open spec fn data_models(slot: u64, parent_offset: u16, bytes: Seq<u8>) -> Seq<
    <DataShred as Codec>::M,
> {
    Seq::new(
        chunk_count(bytes.len()),
        |i: int| data_shred_model(slot, parent_offset, bytes, i),
    )
}

/// The length of the longest.
pub open spec fn longest(parts: Seq<Seq<u8>>) -> nat
    decreases parts.len(),
{
    if parts.len() == 0 {
        0
    } else {
        let before = longest(parts.drop_last());
        if parts.last().len() > before {
            parts.last().len()
        } else {
            before
        }
    }
}

/// Each part with zeros behind it, so that all are as long as the longest.
pub open spec fn padded(parts: Seq<Seq<u8>>) -> Seq<Seq<u8>> {
    Seq::new(
        parts.len(),
        |i: int| parts[i] + Seq::new((longest(parts) - parts[i].len()) as nat, |k: int| 0u8),
    )
}

/// The bytes of the data shreds of group `g`.
pub open spec fn group_parts(data: Seq<<DataShred as Codec>::M>, g: nat) -> Seq<Seq<u8>> {
    let start = g * FEC_GROUP_SIZE as nat;
    let end = start + FEC_GROUP_SIZE as nat;
    let last = if end <= data.len() {
        end
    } else {
        data.len()
    };
    Seq::new((last - start) as nat, |i: int| DataShred::layout(data[start + i]))
}

/// The number of groups.
pub open spec fn group_count(n: nat) -> nat {
    (n + (FEC_GROUP_SIZE - 1) as nat) / FEC_GROUP_SIZE as nat
}

/// The code shreds of one group, numbered from `first`: its parity shards, unless the
/// group is a single shred.
pub open spec fn group_codes(slot: u64, parts: Seq<Seq<u8>>, first: nat) -> Seq<
    <CodeShred as Codec>::M,
> {
    if parts.len() < 2 {
        Seq::empty()
    } else {
        let p = parity_for_rate(parts.len(), FEC_RATE_PERCENT as nat);
        let parity = rs_parity(padded(parts), p);
        Seq::new(
            p,
            |j: int|
                (
                    slot,
                    (
                        (first + j) as u32,
                        (parts.len() as u32, (p as u32, (j as u32, parity[j]))),
                    ),
                ),
        )
    }
}

/// The code shreds of the first `groups` groups.
pub open spec fn code_models(
    slot: u64,
    data: Seq<<DataShred as Codec>::M>,
    groups: nat,
) -> Seq<<CodeShred as Codec>::M>
    decreases groups,
{
    if groups == 0 {
        Seq::empty()
    } else {
        let before = code_models(slot, data, (groups - 1) as nat);
        before + group_codes(slot, group_parts(data, (groups - 1) as nat), before.len())
    }
}

/// What the shreds stand for.
pub open spec fn data_shred_models(shreds: Seq<MerkleDataShred>) -> Seq<<DataShred as Codec>::M> {
    Seq::new(shreds.len(), |i: int| shreds[i].shred.model())
}

pub open spec fn code_shred_models(shreds: Seq<MerkleCodeShred>) -> Seq<<CodeShred as Codec>::M> {
    Seq::new(shreds.len(), |i: int| shreds[i].shred.model())
}

/// Every shred is of this leader and its kept bytes are its own.
pub open spec fn led_by(
    data: Seq<MerkleDataShred>,
    code: Seq<MerkleCodeShred>,
    leader: Digest,
) -> bool {
    &&& forall|i: int|
        0 <= i < data.len() ==> (#[trigger] data[i]).leader == leader && data[i].well_formed()
    &&& forall|i: int|
        0 <= i < code.len() ==> (#[trigger] code[i]).leader == leader && code[i].well_formed()
}

pub open spec fn offset_overflow_text(slot: u64, parent_slot: u64) -> Seq<char> {
    "parent_offset overflow: slot="@ + decimal(slot as nat) + " parent_slot="@ + decimal(
        parent_slot as nat,
    ) + " diff="@ + decimal((slot - parent_slot) as nat) + " > u16::MAX"@
}

pub open spec fn missing_proof_text(kind: Seq<char>, i: nat) -> Seq<char> {
    "missing merkle proof for "@ + kind + " shred "@ + decimal(i)
}

pub proof fn lemma_data_layout_len(m: <DataShred as Codec>::M)
    ensures
        DataShred::layout(m).len() == 19 + m.1.1.1.0.len(),
{
    lemma_byte_items(m.1.1.1.0);
    lemma_le_bytes_len(m.0 as nat, 8);
    lemma_le_bytes_len(m.1.0 as nat, 4);
    lemma_le_bytes_len(m.1.1.0 as nat, 2);
    lemma_le_bytes_len(m.1.1.1.0.len(), 4);
}

proof fn lemma_longest_bounds(parts: Seq<Seq<u8>>)
    ensures
        forall|i: int| 0 <= i < parts.len() ==> (#[trigger] parts[i]).len() <= longest(parts),
    decreases parts.len(),
{
    if parts.len() > 0 {
        lemma_longest_bounds(parts.drop_last());
        assert forall|i: int| 0 <= i < parts.len() implies (#[trigger] parts[i]).len() <= longest(
            parts,
        ) by {
            if i < parts.len() - 1 {
                assert(parts.drop_last()[i] == parts[i]);
            }
        }
    }
}

proof fn lemma_longest_attained(parts: Seq<Seq<u8>>, bound: nat)
    requires
        forall|i: int| 0 <= i < parts.len() ==> (#[trigger] parts[i]).len() <= bound,
    ensures
        longest(parts) <= bound,
    decreases parts.len(),
{
    if parts.len() > 0 {
        assert forall|i: int| 0 <= i < parts.drop_last().len() implies (
        #[trigger] parts.drop_last()[i]).len() <= bound by {
            assert(parts.drop_last()[i] == parts[i]);
        }
        lemma_longest_attained(parts.drop_last(), bound);
    }
}

/// The bytes of a data shred, padded, still start with the shred: whatever is read off
/// the front of them is the shred, and only zeros are left.
pub proof fn padding_keeps_shred(
    m: <DataShred as Codec>::M,
    zeros: Seq<u8>,
    read: <DataShred as Codec>::M,
    rest: Seq<u8>,
)
    requires
        DataShred::fits(m),
        DataShred::fits(read),
        DataShred::layout(m) + zeros == DataShred::layout(read) + rest,
    ensures
        read == m,
        rest == zeros,
{
    DataShred::prefix_free(m, read, zeros, rest);
}

/// The code shreds of a group bring back its data shreds: with the lost ones rebuilt, each
/// shard is the bytes of its shred with zeros behind them.
pub proof fn lost_shreds_come_back(
    data: Seq<<DataShred as Codec>::M>,
    g: nat,
    before: Seq<Option<Seq<u8>>>,
    after: Seq<Seq<u8>>,
    i: int,
)
    requires
        ({
            let parts = group_parts(data, g);
            let p = parity_for_rate(parts.len(), FEC_RATE_PERCENT as nat);
            &&& part_of(before, padded(parts) + rs_parity(padded(parts), p))
            &&& rebuilds(before, parts.len(), p, after)
            &&& 0 <= i < parts.len()
        }),
    ensures
        ({
            let bytes = DataShred::layout(data[g * FEC_GROUP_SIZE + i]);
            &&& after[i].len() >= bytes.len()
            &&& after[i] == bytes + Seq::new((after[i].len() - bytes.len()) as nat, |k: int| 0u8)
        }),
{
    let parts = group_parts(data, g);
    let p = parity_for_rate(parts.len(), FEC_RATE_PERCENT as nat);
    lost_shards_come_back(padded(parts), p, before, after);
    lemma_longest_bounds(parts);
    assert(after[i] == after.take(parts.len() as int)[i]);
    assert(after[i] == padded(parts)[i]);
    assert(parts[i] == DataShred::layout(data[g * FEC_GROUP_SIZE + i]));
    assert(after[i] =~= parts[i] + Seq::new(
        (after[i].len() - parts[i].len()) as nat,
        |k: int| 0u8,
    ));
}

/// What comes of cutting the bytes of a block.
pub open spec fn cut(
    slot: u64,
    parent_slot: u64,
    leader: Digest,
    block_bytes: Seq<u8>,
    r: Result<UnsignedBatch, TurbineError>,
) -> bool {
    match r {
        Ok(batch) => {
            let offset = (slot - parent_slot) as u16;
            let data = data_models(slot, offset, block_bytes);
            &&& 0 <= slot - parent_slot <= u16::MAX
            &&& batch.slot == slot
            &&& batch.leader == leader
            &&& led_by(batch.data_shreds@, batch.code_shreds@, leader)
            &&& data_shred_models(batch.data_shreds@) == data
            &&& code_shred_models(batch.code_shreds@) == code_models(
                slot,
                data,
                group_count(data.len()),
            )
        },
        Err(e) => {
            &&& !(0 <= slot - parent_slot <= u16::MAX)
            &&& e matches TurbineError::BlockSerialization(s) && s@ == if slot < parent_slot {
                "parent_slot > slot: invalid block ancestry"@
            } else {
                offset_overflow_text(slot, parent_slot)
            }
        },
    }
}

/// What comes of cutting a block.
pub open spec fn cut_of(
    block: &Block,
    parent_slot: u64,
    leader: Digest,
    r: Result<UnsignedBatch, TurbineError>,
) -> bool {
    if <Block as Codec>::fits(block.model()) {
        cut(
            block.header.slot,
            parent_slot,
            leader,
            <Block as Codec>::layout(block.model()),
            r,
        )
    } else {
        r matches Err(TurbineError::BlockSerialization(s)) && s@ == codec_error_text(
            CodecError::TooLong,
        )
    }
}

/// The leaves are the hashes of all shreds, data shreds first.
pub open spec fn are_leaves<H: Fn(&Vec<u8>) -> Digest>(
    hash: H,
    batch: UnsignedBatch,
    leaves: Seq<Digest>,
) -> bool {
    let n = batch.data_shreds@.len();
    &&& leaves.len() == n + batch.code_shreds@.len()
    &&& forall|i: int|
        0 <= i < n ==> hashed(
            hash,
            DataShred::layout(batch.data_shreds@[i].shred.model()),
            #[trigger] leaves[i],
        )
    &&& forall|i: int|
        n <= i < leaves.len() ==> hashed(
            hash,
            CodeShred::layout(batch.code_shreds@[i - n].shred.model()),
            #[trigger] leaves[i],
        )
}

/// The tree over the leaves of the batch has this root and these proofs, and the root is
/// signed.
pub open spec fn built<
    H: Fn(&Vec<u8>) -> Digest,
    T: FnOnce(&Vec<Digest>) -> (Digest, Vec<Option<MerkleProof>>),
    S: FnOnce(&Digest) -> Vec<u8>,
>(
    hash: H,
    tree: T,
    sign: S,
    batch: UnsignedBatch,
    leaves: Vec<Digest>,
    root: Digest,
    proofs: Vec<Option<MerkleProof>>,
    signature: Vec<u8>,
) -> bool {
    &&& are_leaves(hash, batch, leaves@)
    &&& tree.ensures((&leaves,), (root, proofs))
    &&& sign.ensures((&root,), signature)
}

/// What comes of putting proofs and a header to a batch.
pub open spec fn sealed_as(
    batch: UnsignedBatch,
    merkle_root: Digest,
    proofs: Seq<Option<MerkleProof>>,
    signature: Vec<u8>,
    r: Result<ShredBatch, TurbineError>,
) -> bool {
    let n = batch.data_shreds@.len();
    let m = batch.code_shreds@.len();
    match r {
        Ok(sealed) => {
            &&& forall|i: int| 0 <= i < n + m ==> has_proof(proofs, i)
            &&& sealed.header.slot == batch.slot
            &&& sealed.header.leader == batch.leader
            &&& sealed.header.merkle_root == merkle_root
            &&& sealed.header.signature == signature
            &&& sealed.header.num_data_shreds == n
            &&& sealed.header.num_code_shreds == m
            &&& sealed.data_shreds@.len() == n
            &&& sealed.code_shreds@.len() == m
            &&& forall|i: int|
                0 <= i < n ==> {
                    let s = #[trigger] sealed.data_shreds@[i];
                    &&& s.shred == batch.data_shreds@[i].shred
                    &&& s.leader == batch.data_shreds@[i].leader
                    &&& s.merkle_proof.model() == (proofs[i]->0).model()
                    &&& batch.data_shreds@[i].well_formed() ==> s.well_formed()
                }
            &&& forall|j: int|
                0 <= j < m ==> {
                    let s = #[trigger] sealed.code_shreds@[j];
                    &&& s.shred == batch.code_shreds@[j].shred
                    &&& s.leader == batch.code_shreds@[j].leader
                    &&& s.merkle_proof.model() == (proofs[n + j]->0).model()
                    &&& batch.code_shreds@[j].well_formed() ==> s.well_formed()
                }
        },
        Err(e) => exists|i: int|
            #![trigger has_proof(proofs, i)]
            {
                &&& 0 <= i < n + m
                &&& !has_proof(proofs, i)
                &&& forall|k: int| 0 <= k < i ==> has_proof(proofs, k)
                &&& e matches TurbineError::Deshredding(s) && s@ == if i < n {
                    missing_proof_text("data"@, i as nat)
                } else {
                    missing_proof_text("code"@, (i - n) as nat)
                }
            },
    }
}

/// What comes of shredding a block.
pub open spec fn shredded<
    H: Fn(&Vec<u8>) -> Digest,
    T: FnOnce(&Vec<Digest>) -> (Digest, Vec<Option<MerkleProof>>),
    S: FnOnce(&Digest) -> Vec<u8>,
>(
    block: &Block,
    parent_slot: u64,
    leader: Digest,
    hash: H,
    tree: T,
    sign: S,
    r: Result<ShredBatch, TurbineError>,
) -> bool {
    if <Block as Codec>::fits(block.model()) && 0 <= block.header.slot - parent_slot
        <= u16::MAX {
        exists|
            batch: UnsignedBatch,
            leaves: Vec<Digest>,
            root: Digest,
            proofs: Vec<Option<MerkleProof>>,
            signature: Vec<u8>,
        | #[trigger]
            built(hash, tree, sign, batch, leaves, root, proofs, signature) && cut_of(
                block,
                parent_slot,
                leader,
                Ok(batch),
            ) && sealed_as(batch, root, proofs@, signature, r)
    } else {
        r matches Err(e) && cut_of(block, parent_slot, leader, Err(e))
    }
}

/// There are no more code shreds than data shreds.
proof fn lemma_code_count(slot: u64, data: Seq<<DataShred as Codec>::M>, groups: nat)
    requires
        groups <= group_count(data.len()),
    ensures
        code_models(slot, data, groups).len() <= data.len(),
        code_models(slot, data, groups).len() <= groups * FEC_GROUP_SIZE as nat,
    decreases groups,
{
    if groups > 0 {
        lemma_code_count(slot, data, (groups - 1) as nat);
        let parts = group_parts(data, (groups - 1) as nat);
        let p = parity_for_rate(parts.len(), FEC_RATE_PERCENT as nat);
        assert(parts.len() >= 2 ==> p <= parts.len());
    }
}

pub struct Shredder;

impl Shredder {
    /// Shred a block into Merkle-authenticated data shreds and FEC code shreds, with one
    /// signature per slot, on the Merkle root.
    ///
    /// `hash` hashes the bytes of a shred, `tree` builds the Merkle tree over the leaves
    /// and gives its root and the proof of each leaf, and `sign` is the leader's signature.
    /// A parent that is later than the block, or too early for the 16-bit offset to say,
    /// is refused, and a proof that is missing is an error.
    pub fn shred_block<
        H: Fn(&Vec<u8>) -> Digest + Copy,
        T: FnOnce(&Vec<Digest>) -> (Digest, Vec<Option<MerkleProof>>),
        S: FnOnce(&Digest) -> Vec<u8>,
    >(
        block: &Block,
        parent_slot: u64,
        leader: Digest,
        hash: H,
        tree: T,
        sign: S,
    ) -> (r: Result<ShredBatch, TurbineError>)
        requires
            <Block as Codec>::fits(block.model()) ==> chunk_count(
                <Block as Codec>::layout(block.model()).len(),
            ) <= u32::MAX,
            forall|bytes: Vec<u8>| #[trigger] hash.requires((&bytes,)),
            forall|leaves: Vec<Digest>| #[trigger] tree.requires((&leaves,)),
            forall|root: Digest| #[trigger] sign.requires((&root,)),
        ensures
            shredded(block, parent_slot, leader, hash, tree, sign, r),
    {
        let batch: UnsignedBatch = match Self::cut_block(block, parent_slot, leader) {
            Ok(batch) => batch,
            Err(e) => {
                return Err(e);
            },
        };
        proof {
            let data = data_shred_models(batch.data_shreds@);
            lemma_code_count(batch.slot, data, group_count(data.len()));
        }
        let leaves: Vec<Digest> = Self::leaves(&batch, hash);
        let (root, proofs) = tree(&leaves);
        let signature: Vec<u8> = sign(&root);
        assert(built(hash, tree, sign, batch, leaves, root, proofs, signature));
        Self::seal_batch(batch, root, proofs.as_slice(), signature)
    }

    /// The hashes of all shreds, data shreds first: the leaves of the Merkle tree.
    pub fn leaves<H: Fn(&Vec<u8>) -> Digest + Copy>(batch: &UnsignedBatch, hash: H) -> (r: Vec<
        Digest,
    >)
        requires
            led_by(batch.data_shreds@, batch.code_shreds@, batch.leader),
            forall|bytes: Vec<u8>| #[trigger] hash.requires((&bytes,)),
        ensures
            are_leaves(hash, *batch, r@),
    {
        let n: usize = batch.data_shreds.len();
        let m: usize = batch.code_shreds.len();
        let mut out: Vec<Digest> = Vec::new();
        let mut i: usize = 0;
        while i < n
            invariant
                i <= n == batch.data_shreds@.len(),
                led_by(batch.data_shreds@, batch.code_shreds@, batch.leader),
                forall|bytes: Vec<u8>| #[trigger] hash.requires((&bytes,)),
                out@.len() == i,
                forall|k: int|
                    0 <= k < i ==> hashed(
                        hash,
                        DataShred::layout(batch.data_shreds@[k].shred.model()),
                        #[trigger] out@[k],
                    ),
            decreases n - i,
        {
            let leaf: Digest = batch.data_shreds[i].shred_hash(hash);
            assert(hashed(
                hash,
                DataShred::layout(batch.data_shreds@[i as int].shred.model()),
                leaf,
            ));
            out.push(leaf);
            i = i + 1;
        }
        let mut j: usize = 0;
        while j < m
            invariant
                n == batch.data_shreds@.len(),
                j <= m == batch.code_shreds@.len(),
                led_by(batch.data_shreds@, batch.code_shreds@, batch.leader),
                forall|bytes: Vec<u8>| #[trigger] hash.requires((&bytes,)),
                out@.len() == n + j,
                forall|k: int|
                    0 <= k < n ==> hashed(
                        hash,
                        DataShred::layout(batch.data_shreds@[k].shred.model()),
                        #[trigger] out@[k],
                    ),
                forall|k: int|
                    n <= k < n + j ==> hashed(
                        hash,
                        CodeShred::layout(batch.code_shreds@[k - n].shred.model()),
                        #[trigger] out@[k],
                    ),
            decreases m - j,
        {
            let leaf: Digest = batch.code_shreds[j].shred_hash(hash);
            assert(hashed(
                hash,
                CodeShred::layout(batch.code_shreds@[j as int].shred.model()),
                leaf,
            ));
            out.push(leaf);
            j = j + 1;
        }
        out
    }

    /// Cut a block into data shreds, and compute the code shreds of every group of them.
    ///
    /// A parent that is later than the block, or too early for the 16-bit offset to say,
    /// is refused.
    pub fn cut_block(block: &Block, parent_slot: u64, leader: Digest) -> (r: Result<
        UnsignedBatch,
        TurbineError,
    >)
        requires
            <Block as Codec>::fits(block.model()) ==> chunk_count(
                <Block as Codec>::layout(block.model()).len(),
            ) <= u32::MAX,
        ensures
            cut_of(block, parent_slot, leader, r),
    {
        match to_vec(block) {
            Ok(bytes) => Self::shred_bytes(
                block.header.slot,
                parent_slot,
                leader,
                bytes.as_slice(),
            ),
            Err(e) => Err(TurbineError::BlockSerialization(e.describe())),
        }
    }

    /// Cut the bytes of a block.
    fn shred_bytes(slot: u64, parent_slot: u64, leader: Digest, block_bytes: &[u8]) -> (r: Result<
        UnsignedBatch,
        TurbineError,
    >)
        requires
            chunk_count(block_bytes@.len()) <= u32::MAX,
        ensures
            cut(slot, parent_slot, leader, block_bytes@, r),
    {
        if slot < parent_slot {
            return Err(
                TurbineError::BlockSerialization(
                    string("parent_slot > slot: invalid block ancestry"),
                ),
            );
        }
        let diff: u64 = slot - parent_slot;
        if diff > u16::MAX as u64 {
            let mut text: String = string("parent_offset overflow: slot=");
            push_u64(&mut text, slot);
            push_str(&mut text, " parent_slot=");
            push_u64(&mut text, parent_slot);
            push_str(&mut text, " diff=");
            push_u64(&mut text, diff);
            push_str(&mut text, " > u16::MAX");
            return Err(TurbineError::BlockSerialization(text));
        }
        let data_shreds = Self::data_shreds(slot, diff as u16, leader, block_bytes);
        let code_shreds = Self::code_shreds(
            slot,
            leader,
            &data_shreds,
            Ghost(data_models(slot, diff as u16, block_bytes@)),
        );
        Ok(UnsignedBatch { slot, leader, data_shreds, code_shreds })
    }

    fn data_shreds(slot: u64, parent_offset: u16, leader: Digest, block_bytes: &[u8]) -> (r: Vec<
        MerkleDataShred,
    >)
        requires
            chunk_count(block_bytes@.len()) <= u32::MAX,
        ensures
            data_shred_models(r@) == data_models(slot, parent_offset, block_bytes@),
            led_by(r@, Seq::empty(), leader),
    {
        let len: usize = block_bytes.len();
        let portion: usize = MAX_DATA_PER_SHRED as usize;
        let mut shreds: Vec<MerkleDataShred> = Vec::new();
        let mut pos: usize = 0;
        let mut i: u32 = 0;
        while pos < len
            invariant
                len == block_bytes@.len(),
                portion == MAX_DATA_PER_SHRED,
                pos <= len,
                shreds@.len() == i,
                chunk_count(block_bytes@.len()) <= u32::MAX,
                pos < len ==> pos == i * MAX_DATA_PER_SHRED,
                pos == len ==> i == chunk_count(len as nat),
                forall|k: int|
                    0 <= k < i ==> {
                        &&& (#[trigger] shreds@[k]).shred.model() == data_shred_model(
                            slot,
                            parent_offset,
                            block_bytes@,
                            k,
                        )
                        &&& shreds@[k].leader == leader
                        &&& shreds@[k].well_formed()
                    },
            decreases len - pos,
        {
            let is_last = len - pos <= portion;
            let end: usize = if is_last {
                len
            } else {
                pos + portion
            };
            let data: Vec<u8> = slice_to_vec(slice_subrange(block_bytes, pos, end));
            let flags: u8 = if is_last {
                LAST_SHRED_FLAG
            } else {
                0x00
            };
            let shred = DataShred { slot, index: i, parent_offset, data, flags };
            proof {
                assert(shred.model() == data_shred_model(
                    slot,
                    parent_offset,
                    block_bytes@,
                    i as int,
                ));
                lemma_byte_items(shred.data@);
            }
            shreds.push(MerkleDataShred::new(shred, leader));
            pos = end;
            i = i + 1;
        }
        assert(data_shred_models(shreds@) =~= data_models(slot, parent_offset, block_bytes@));
        shreds
    }

    fn code_shreds(
        slot: u64,
        leader: Digest,
        data_shreds: &Vec<MerkleDataShred>,
        Ghost(data): Ghost<Seq<<DataShred as Codec>::M>>,
    ) -> (r: Vec<MerkleCodeShred>)
        requires
            data == data_shred_models(data_shreds@),
            data.len() <= u32::MAX,
            led_by(data_shreds@, Seq::empty(), leader),
            forall|i: int|
                0 <= i < data.len() ==> (#[trigger] data[i]).1.1.1.0.len() <= MAX_DATA_PER_SHRED,
        ensures
            code_shred_models(r@) == code_models(slot, data, group_count(data.len())),
            led_by(Seq::empty(), r@, leader),
    {
        let n: usize = data_shreds.len();
        let mut codes: Vec<MerkleCodeShred> = Vec::new();
        let mut start: usize = 0;
        let ghost mut g: nat = 0;
        assert(code_shred_models(codes@) =~= Seq::empty());
        while start < n
            invariant
                n == data_shreds@.len() == data.len(),
                n <= u32::MAX,
                data == data_shred_models(data_shreds@),
                led_by(data_shreds@, Seq::empty(), leader),
                forall|i: int|
                    0 <= i < data.len() ==> (#[trigger] data[i]).1.1.1.0.len()
                        <= MAX_DATA_PER_SHRED,
                start <= n,
                start < n ==> start == g * FEC_GROUP_SIZE,
                start == n ==> g == group_count(n as nat),
                codes@.len() <= start,
                code_shred_models(codes@) == code_models(slot, data, g),
                led_by(Seq::empty(), codes@, leader),
            decreases n - start,
        {
            let end: usize = if n - start <= FEC_GROUP_SIZE {
                n
            } else {
                start + FEC_GROUP_SIZE
            };
            let count: usize = end - start;
            let ghost parts = group_parts(data, g);
            let ghost before = codes@;
            assert(parts.len() == count);
            if count >= 2 {
                assert forall|i: int| 0 <= i < data_shreds@.len() implies (
                #[trigger] data_shreds@[i]).shred.data@.len() <= MAX_DATA_PER_SHRED by {
                    assert(data[i].1.1.1.0 == data_shreds@[i].shred.data@);
                }
                let parity: Vec<Vec<u8>> = Self::parity_of(
                    data_shreds,
                    start,
                    end,
                    Ghost(parts),
                );
                let p: usize = parity.len();
                let first: u32 = codes.len() as u32;
                let mut j: usize = 0;
                while j < p
                    invariant
                        j <= p == parity@.len(),
                        p == parity_for_rate(count as nat, FEC_RATE_PERCENT as nat),
                        2 <= count <= FEC_GROUP_SIZE,
                        count == parts.len(),
                        shard_bytes(parity@) == rs_parity(padded(parts), p as nat),
                        forall|k: int| 0 <= k < p ==> (#[trigger] parity@[k])@.len() <= 1247,
                        first == before.len(),
                        first + p <= u32::MAX,
                        codes@.len() == first + j,
                        forall|k: int| 0 <= k < first ==> codes@[k] == before[k],
                        forall|k: int|
                            0 <= k < j ==> {
                                &&& (#[trigger] codes@[first + k]).shred.model() == group_codes(
                                    slot,
                                    parts,
                                    first as nat,
                                )[k]
                                &&& codes@[first + k].leader == leader
                                &&& codes@[first + k].well_formed()
                            },
                    decreases p - j,
                {
                    let code = CodeShred {
                        slot,
                        index: first + j as u32,
                        num_data_shreds: count as u32,
                        num_code_shreds: p as u32,
                        position: j as u32,
                        data: slice_to_vec(parity[j].as_slice()),
                    };
                    proof {
                        assert(shard_bytes(parity@)[j as int] == parity@[j as int]@);
                        assert(code.model() == group_codes(slot, parts, first as nat)[j as int]);
                        lemma_byte_items(code.data@);
                    }
                    codes.push(MerkleCodeShred::new(code, leader));
                    j = j + 1;
                }
                proof {
                    assert forall|k: int| 0 <= k < codes@.len() implies (
                    #[trigger] codes@[k]).leader == leader && codes@[k].well_formed() by {
                        if k >= first {
                            assert(codes@[first + (k - first)] == codes@[k]);
                        } else {
                            assert(before[k].leader == leader && before[k].well_formed());
                        }
                    }
                }
            }
            proof {
                let added = group_codes(slot, parts, before.len());
                let so_far = code_shred_models(before);
                assert(so_far.len() == before.len());
                assert(code_shred_models(codes@) =~= so_far + added) by {
                    assert(codes@.len() == before.len() + added.len());
                    assert forall|k: int| 0 <= k < codes@.len() implies code_shred_models(codes@)[k]
                        == (so_far + added)[k] by {
                        if k >= before.len() {
                            assert(codes@[before.len() + (k - before.len())] == codes@[k]);
                        }
                    }
                }
                g = g + 1;
                assert(code_models(slot, data, g) == so_far + added);
            }
            start = end;
        }
        codes
    }

    /// The parity shards of the data shreds from `start` to `end`.
    fn parity_of(
        data_shreds: &Vec<MerkleDataShred>,
        start: usize,
        end: usize,
        Ghost(parts): Ghost<Seq<Seq<u8>>>,
    ) -> (r: Vec<Vec<u8>>)
        requires
            start + 2 <= end <= data_shreds@.len(),
            end - start <= FEC_GROUP_SIZE,
            parts.len() == end - start,
            forall|i: int|
                0 <= i < data_shreds@.len() ==> (#[trigger] data_shreds@[i]).well_formed(),
            forall|i: int|
                0 <= i < parts.len() ==> #[trigger] parts[i] == DataShred::layout(
                    data_shreds@[start + i].shred.model(),
                ),
            forall|i: int|
                0 <= i < data_shreds@.len() ==> (#[trigger] data_shreds@[i]).shred.data@.len()
                    <= MAX_DATA_PER_SHRED,
        ensures
            r@.len() == parity_for_rate(parts.len(), FEC_RATE_PERCENT as nat),
            shard_bytes(r@) == rs_parity(padded(parts), r@.len()),
            forall|k: int| 0 <= k < r@.len() ==> (#[trigger] r@[k])@.len() <= 1247,
    {
        let count: usize = end - start;
        proof {
            assert forall|i: int| 0 <= i < parts.len() implies 19 <= (#[trigger] parts[i]).len()
                <= 1247 by {
                lemma_data_layout_len(data_shreds@[start + i].shred.model());
            }
            lemma_longest_bounds(parts);
            lemma_longest_attained(parts, 1247);
            assert(parts[0].len() <= longest(parts));
        }
        let mut max_len: usize = 0;
        let mut i: usize = 0;
        assert(parts.take(0) =~= Seq::empty());
        while i < count
            invariant
                i <= count == parts.len(),
                start + count == end <= data_shreds@.len(),
                forall|k: int|
                    0 <= k < data_shreds@.len() ==> (#[trigger] data_shreds@[k]).well_formed(),
                forall|k: int|
                    0 <= k < parts.len() ==> #[trigger] parts[k] == DataShred::layout(
                        data_shreds@[start + k].shred.model(),
                    ),
                max_len == longest(parts.take(i as int)),
            decreases count - i,
        {
            let shred: &MerkleDataShred = &data_shreds[start + i];
            assert(parts[i as int] == DataShred::layout(shred.shred.model()));
            let len: usize = shred.shred_bytes().len();
            assert(parts.take(i + 1).drop_last() =~= parts.take(i as int));
            if len > max_len {
                max_len = len;
            }
            i = i + 1;
        }
        assert(parts.take(count as int) =~= parts);
        let mut shards: Vec<Vec<u8>> = Vec::new();
        let mut i: usize = 0;
        while i < count
            invariant
                i <= count == parts.len(),
                start + count == end <= data_shreds@.len(),
                forall|k: int|
                    0 <= k < data_shreds@.len() ==> (#[trigger] data_shreds@[k]).well_formed(),
                forall|k: int|
                    0 <= k < parts.len() ==> #[trigger] parts[k] == DataShred::layout(
                        data_shreds@[start + k].shred.model(),
                    ),
                forall|k: int|
                    0 <= k < parts.len() ==> (#[trigger] parts[k]).len() <= longest(parts),
                max_len == longest(parts),
                shards@.len() == i,
                forall|k: int| 0 <= k < i ==> (#[trigger] shards@[k])@ == padded(parts)[k],
            decreases count - i,
        {
            let shred: &MerkleDataShred = &data_shreds[start + i];
            assert(parts[i as int] == DataShred::layout(shred.shred.model()));
            let mut buf: Vec<u8> = slice_to_vec(shred.shred_bytes());
            let len: usize = buf.len();
            let gap: usize = max_len - len;
            let mut zeros: Vec<u8> = vec![0u8; gap];
            buf.append(&mut zeros);
            assert(buf@ =~= padded(parts)[i as int]);
            shards.push(buf);
            i = i + 1;
        }
        let ec = ErasureCoder::from_fec_rate(count, FEC_RATE_PERCENT as u32);
        proof {
            assert(shard_bytes(shards@) =~= padded(parts));
            assert forall|k: int| 0 <= k < padded(parts).len() implies (#[trigger] padded(
                parts,
            )[k]).len() > 0 && padded(parts)[k].len() == padded(parts)[0].len() by {
                assert(parts[k].len() <= longest(parts));
                assert(parts[0].len() <= longest(parts));
            }
        }
        match ec.encode(shards.as_slice()) {
            Ok(parity) => parity,
            Err(_) => {
                assert(code_exists(ec.data_count(), ec.parity_count()));
                assert(equally_long(shard_bytes(shards@)));
                Vec::new()
            },
        }
    }

    /// Attach the proofs, data shreds first, and put the header on top: `signature` is the
    /// leader's over the root of the Merkle tree whose leaves are the hashes of all shreds.
    /// A proof that is missing is an error.
    pub fn seal_batch(
        batch: UnsignedBatch,
        merkle_root: Digest,
        proofs: &[Option<MerkleProof>],
        signature: Vec<u8>,
    ) -> (r: Result<ShredBatch, TurbineError>)
        requires
            batch.data_shreds@.len() <= u32::MAX,
            batch.code_shreds@.len() <= u32::MAX,
        ensures
            sealed_as(batch, merkle_root, proofs@, signature, r),
    {
        let ghost n = batch.data_shreds@.len();
        let UnsignedBatch { slot, leader, data_shreds: bare_data, code_shreds: bare_code } = batch;
        let ghost data = bare_data@;
        let ghost code = bare_code@;
        let mut data_shreds: Vec<MerkleDataShred> = Vec::new();
        for shred in it: bare_data
            invariant
                it.seq() == data,
                data == batch.data_shreds@,
                code == batch.code_shreds@,
                n == data.len(),
                data_shreds@.len() == it.index(),
                forall|k: int| 0 <= k < it.index() ==> has_proof(proofs@, k),
                forall|k: int|
                    0 <= k < it.index() ==> {
                        let s = #[trigger] data_shreds@[k];
                        &&& s.shred == data[k].shred
                        &&& s.leader == data[k].leader
                        &&& s.merkle_proof.model() == (proofs@[k]->0).model()
                        &&& data[k].well_formed() ==> s.well_formed()
                    },
        {
            let i: usize = data_shreds.len();
            match proof_at(proofs, i) {
                Some(p) => {
                    data_shreds.push(shred.with_proof(p));
                },
                None => {
                    assert(!has_proof(proofs@, i as int));
                    return Err(TurbineError::Deshredding(missing_proof("data", i)));
                },
            }
        }
        let mut code_shreds: Vec<MerkleCodeShred> = Vec::new();
        for shred in it: bare_code
            invariant
                it.seq() == code,
                data == batch.data_shreds@,
                code == batch.code_shreds@,
                n == data.len() == data_shreds@.len(),
                code_shreds@.len() == it.index(),
                forall|k: int| 0 <= k < n + it.index() ==> has_proof(proofs@, k),
                forall|k: int|
                    0 <= k < it.index() ==> {
                        let s = #[trigger] code_shreds@[k];
                        &&& s.shred == code[k].shred
                        &&& s.leader == code[k].leader
                        &&& s.merkle_proof.model() == (proofs@[n + k]->0).model()
                        &&& code[k].well_formed() ==> s.well_formed()
                    },
        {
            let j: usize = code_shreds.len();
            let place: Option<usize> = data_shreds.len().checked_add(j);
            let found: Option<MerkleProof> = match place {
                Some(i) => proof_at(proofs, i),
                None => None,
            };
            match found {
                Some(p) => {
                    code_shreds.push(shred.with_proof(p));
                },
                None => {
                    assert(!has_proof(proofs@, (n + j) as int)) by {
                        let len = proofs.len();
                    }
                    return Err(TurbineError::Deshredding(missing_proof("code", j)));
                },
            }
        }
        let header = build_batch_header(
            slot,
            leader,
            data_shreds.as_slice(),
            code_shreds.as_slice(),
            signature,
            merkle_root,
        );
        Ok(ShredBatch { header, data_shreds, code_shreds })
    }
}

/// The tree has a proof for leaf `i`.
pub open spec fn has_proof(proofs: Seq<Option<MerkleProof>>, i: int) -> bool {
    0 <= i < proofs.len() && proofs[i] is Some
}

fn proof_at(proofs: &[Option<MerkleProof>], i: usize) -> (r: Option<MerkleProof>)
    ensures
        match r {
            Some(p) => has_proof(proofs@, i as int) && p.model() == (proofs@[i as int]->0).model(),
            None => !has_proof(proofs@, i as int),
        },
{
    if i < proofs.len() {
        match &proofs[i] {
            Some(p) => Some(
                MerkleProof {
                    hashes: slice_to_vec(p.hashes.as_slice()),
                    path: slice_to_vec(p.path.as_slice()),
                },
            ),
            None => None,
        }
    } else {
        None
    }
}

fn missing_proof(kind: &str, i: usize) -> (r: String)
    ensures
        r@ == missing_proof_text(kind@, i as nat),
{
    let mut text: String = string("missing merkle proof for ");
    push_str(&mut text, kind);
    push_str(&mut text, " shred ");
    push_usize(&mut text, i);
    text
}

/// A block is cut into data shreds of 1228 bytes, the last of what is left. Each tells the slot, its
/// place, and how far back the parent is; the last one says that it is, and the others do not.
pub proof fn shreds_carry_the_block_in_order(
    slot: u64,
    parent_slot: u64,
    leader: Digest,
    bytes: Seq<u8>,
    batch: UnsignedBatch,
    i: int,
)
    requires
        cut(slot, parent_slot, leader, bytes, Ok(batch)),
        bytes.len() > 0,
        chunk_count(bytes.len()) <= u32::MAX,
        0 <= i < batch.data_shreds@.len(),
    ensures
        ({
            let n = batch.data_shreds@.len();
            let s = batch.data_shreds@[i];
            let end = if i == n - 1 {
                bytes.len() as int
            } else {
                (i + 1) * 1228
            };
            &&& (n - 1) * 1228 < bytes.len() <= n * 1228
            &&& s.leader == leader
            &&& s.shred.slot == slot
            &&& s.shred.index == i
            &&& s.shred.parent_offset == slot - parent_slot
            &&& s.shred.data@ == bytes.subrange(i * 1228, end)
            &&& s.shred.flags == if i == n - 1 {
                1u8
            } else {
                0u8
            }
        }),
{
    let n = batch.data_shreds@.len();
    let offset = (slot - parent_slot) as u16;
    let data = data_models(slot, offset, bytes);
    assert(data_shred_models(batch.data_shreds@).len() == data.len());
    assert(data_shred_models(batch.data_shreds@)[i] == data[i]);
    assert(n == (bytes.len() + 1227) / 1228);
    assert((n - 1) * 1228 < bytes.len() <= n * 1228);
    lemma_byte_model(batch.data_shreds@[i].shred.data@);
    if i < n - 1 {
        assert((i + 1) * 1228 <= (n - 1) * 1228);
    }
}

/// There is at least one data shred in a block that has any bytes.
pub proof fn block_has_a_shred(
    slot: u64,
    parent_slot: u64,
    leader: Digest,
    bytes: Seq<u8>,
    batch: UnsignedBatch,
)
    requires
        cut(slot, parent_slot, leader, bytes, Ok(batch)),
        bytes.len() > 0,
    ensures
        batch.data_shreds@.len() > 0,
        batch.data_shreds@.len() == (bytes.len() + 1227) / 1228,
{
    let data = data_models(slot, (slot - parent_slot) as u16, bytes);
    assert(data_shred_models(batch.data_shreds@).len() == data.len());
}

proof fn lemma_codes_of_full_groups(slot: u64, data: Seq<<DataShred as Codec>::M>, groups: nat)
    requires
        groups * 32 <= data.len(),
    ensures
        code_models(slot, data, groups).len() == groups * 10,
    decreases groups,
{
    if groups > 0 {
        lemma_codes_of_full_groups(slot, data, (groups - 1) as nat);
    }
}

proof fn lemma_code_at(
    slot: u64,
    data: Seq<<DataShred as Codec>::M>,
    groups: nat,
    g: nat,
    j: int,
)
    requires
        g < groups,
        (groups - 1) * 32 <= data.len(),
        0 <= j < group_codes(slot, group_parts(data, g), g * 10).len(),
    ensures
        g * 10 + j < code_models(slot, data, groups).len(),
        code_models(slot, data, groups)[g * 10 + j] == group_codes(
            slot,
            group_parts(data, g),
            g * 10,
        )[j],
    decreases groups,
{
    let before = code_models(slot, data, (groups - 1) as nat);
    lemma_codes_of_full_groups(slot, data, (groups - 1) as nat);
    if g < groups - 1 {
        lemma_code_at(slot, data, (groups - 1) as nat, g, j);
    }
}

/// How many shreds of a block are in a group of 32.
pub open spec fn group_size(shreds: nat, g: nat) -> nat {
    if shreds <= g * 32 {
        0
    } else if shreds - g * 32 >= 32 {
        32
    } else {
        (shreds - g * 32) as nat
    }
}

/// Every group of 32 data shreds has ten code shreds, in the order of the groups; the last group,
/// where it has fewer, has a third of that, and at least one, unless it is a single shred. Each
/// tells the slot, its place in all and in the group, and how many shreds the group has of either
/// kind; and holds the parity of the group's shreds.
pub proof fn every_group_has_its_codes(
    slot: u64,
    parent_slot: u64,
    leader: Digest,
    bytes: Seq<u8>,
    batch: UnsignedBatch,
    g: nat,
    j: int,
)
    requires
        cut(slot, parent_slot, leader, bytes, Ok(batch)),
        chunk_count(bytes.len()) <= u32::MAX,
        group_size(batch.data_shreds@.len(), g) >= 2,
    ensures
        ({
            let k = group_size(batch.data_shreds@.len(), g);
            let p = if k < 4 {
                1
            } else {
                (k * 33 / 100) as int
            };
            let parts = Seq::new(
                k,
                |i: int| DataShred::layout(batch.data_shreds@[g * 32 + i].shred.model()),
            );
            &&& k == 32 ==> p == 10
            &&& g * 10 + p <= batch.code_shreds@.len()
            &&& 0 <= j < p ==> {
                let c = batch.code_shreds@[g * 10 + j];
                &&& c.leader == leader
                &&& c.shred.slot == slot
                &&& c.shred.index == g * 10 + j
                &&& c.shred.num_data_shreds == k
                &&& c.shred.num_code_shreds == p
                &&& c.shred.position == j
                &&& c.shred.data@ == rs_parity(padded(parts), p as nat)[j]
            }
        }),
{
    let n = batch.data_shreds@.len();
    let data = data_models(slot, (slot - parent_slot) as u16, bytes);
    let models = data_shred_models(batch.data_shreds@);
    assert(models.len() == data.len() == n);
    let k = group_size(n, g);
    let parts = Seq::new(
        k,
        |i: int| DataShred::layout(batch.data_shreds@[g * 32 + i].shred.model()),
    );
    assert forall|i: int| 0 <= i < k implies data[g * 32 + i] == (#[trigger] batch.data_shreds@[g
        * 32 + i]).shred.model() by {
        assert(models[g * 32 + i] == data[g * 32 + i]);
    }
    assert(group_parts(data, g) =~= parts);
    let groups = group_count(n);
    assert(groups == (n + 31) / 32);
    assert(g < groups);
    let codes = group_codes(slot, parts, g * 10);
    let p = if k < 4 {
        1
    } else {
        (k * 33 / 100) as int
    };
    assert(codes.len() == p);
    lemma_code_at(slot, data, groups, g, p - 1);
    let all = code_shred_models(batch.code_shreds@);
    assert(all == code_models(slot, data, groups));
    assert(all.len() == batch.code_shreds@.len());
    if 0 <= j < p {
        lemma_code_at(slot, data, groups, g, j);
        assert(all[g * 10 + j] == batch.code_shreds@[g * 10 + j].shred.model());
        lemma_byte_model(batch.code_shreds@[g * 10 + j].shred.data@);
        assert(all[g * 10 + j] == codes[j]);
        assert(g * 10 + j <= u32::MAX);
    }
}

} // verus!
