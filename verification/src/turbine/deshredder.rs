//! Putting a block together again from its data shreds.

use crate::bytes::lemma_le_bytes_len;
use crate::codec::{encodes, from_slice, layout_is_injective, misreading, Codec};
use crate::digest::{hashed, Digest};
use crate::ledger::Block;
use crate::merkle::MerkleProof;
use crate::storage::error::codec_error_text;
use crate::storage::shred::{CodeShred, DataShred};
use crate::text::{decimal, push_str, push_u64, push_usize, string};
use crate::turbine::error::TurbineError;
use crate::turbine::merkle_shred::{has_last_flag, LAST_SHRED_FLAG};
use crate::turbine::shredder::{
    built, chunk, chunk_count, cut_of, data_models, data_shred_models, has_proof, sealed_as,
    shredded, ShredBatch, UnsignedBatch, MAX_DATA_PER_SHRED,
};
use vstd::prelude::*;
use vstd::slice::slice_to_vec;

verus! {

/// The data of all shreds, one behind the other.
pub open spec fn joined(shreds: Seq<<DataShred as Codec>::M>) -> Seq<u8>
    decreases shreds.len(),
{
    if shreds.len() == 0 {
        Seq::empty()
    } else {
        joined(shreds.drop_last()) + shreds.last().1.1.1.0
    }
}

/// What the shreds stand for.
pub open spec fn shred_models(shreds: Seq<DataShred>) -> Seq<<DataShred as Codec>::M> {
    Seq::new(shreds.len(), |i: int| shreds[i].model())
}

/// The shred at place `i` bears the index `i`.
pub open spec fn in_place(shreds: Seq<<DataShred as Codec>::M>, i: int) -> bool {
    shreds[i].1.0 == i as u32
}

/// All shreds of a block: in order from 0 on, the last one flagged.
pub open spec fn is_complete(shreds: Seq<<DataShred as Codec>::M>) -> bool {
    &&& shreds.len() > 0
    &&& forall|i: int| 0 <= i < shreds.len() ==> #[trigger] in_place(shreds, i)
    &&& has_last_flag(shreds.last().1.1.1.1)
}

pub open spec fn misplaced_text(i: nat, index: nat) -> Seq<char> {
    "expected shred index "@ + decimal(i) + ", got "@ + decimal(index)
}

/// Why shreds that are not complete are refused.
pub open spec fn refusal_text(s: Seq<<DataShred as Codec>::M>, text: Seq<char>) -> bool {
    if s.len() == 0 {
        text == "no shreds provided"@
    } else if forall|i: int| 0 <= i < s.len() ==> #[trigger] in_place(s, i) {
        text == "last shred missing completion flag"@
    } else {
        exists|i: int|
            #![trigger in_place(s, i)]
            {
                &&& 0 <= i < s.len()
                &&& !in_place(s, i)
                &&& forall|k: int| 0 <= k < i ==> #[trigger] in_place(s, k)
                &&& text == misplaced_text(i as nat, s[i].1.0 as nat)
            }
    }
}

/// A block, as a mathematical value.
pub type BlockModel = <Block as Codec>::M;

/// The block whose bytes these are.
pub open spec fn block_of(bytes: Seq<u8>) -> Option<BlockModel> {
    if exists|m: BlockModel| encodes::<Block>(bytes, m) {
        Some(choose|m: BlockModel| encodes::<Block>(bytes, m))
    } else {
        None
    }
}

/// Bytes stand for one block at most.
pub proof fn lemma_block_of(bytes: Seq<u8>, m: BlockModel)
    requires
        encodes::<Block>(bytes, m),
    ensures
        block_of(bytes) == Some(m),
{
    layout_is_injective::<Block>(m, block_of(bytes)->0);
}

pub struct Deshredder;

impl Deshredder {
    /// Reassemble a block from data shreds.
    /// Shreds must be sorted by index and contiguous from 0.
    pub fn deshred(shreds: &[DataShred]) -> (r: Result<Block, TurbineError>)
        ensures
            ({
                let s = shred_models(shreds@);
                match r {
                    Ok(block) => is_complete(s) && block_of(joined(s)) == Some(block.model()),
                    Err(TurbineError::Deserialization(text)) => {
                        &&& is_complete(s)
                        &&& block_of(joined(s)) is None
                        &&& text@ == codec_error_text(misreading::<Block>(joined(s)))
                    },
                    Err(e) => !is_complete(s) && (e matches TurbineError::Deshredding(text)
                        && refusal_text(s, text@)),
                }
            }),
    {
        let bytes = match Self::join(shreds) {
            Ok(bytes) => bytes,
            Err(e) => return Err(e),
        };
        match from_slice::<Block>(bytes.as_slice()) {
            Ok(block) => {
                proof {
                    lemma_block_of(bytes@, block.model());
                }
                Ok(block)
            },
            Err(e) => Err(TurbineError::Deserialization(e.describe())),
        }
    }

    /// The bytes of a block, from its data shreds.
    fn join(shreds: &[DataShred]) -> (r: Result<Vec<u8>, TurbineError>)
        ensures
            ({
                let s = shred_models(shreds@);
                match r {
                    Ok(bytes) => is_complete(s) && bytes@ == joined(s),
                    Err(e) => !is_complete(s) && (e matches TurbineError::Deshredding(text)
                        && refusal_text(s, text@)),
                }
            }),
    {
        let ghost s = shred_models(shreds@);
        let n: usize = shreds.len();
        if n == 0 {
            return Err(TurbineError::Deshredding(string("no shreds provided")));
        }
        let mut i: usize = 0;
        while i < n
            invariant
                i <= n == shreds@.len(),
                s == shred_models(shreds@),
                forall|k: int| 0 <= k < i ==> #[trigger] in_place(s, k),
            decreases n - i,
        {
            #[verifier::truncate]
            let expected: u32 = i as u32;
            if shreds[i].index != expected {
                assert(!in_place(s, i as int));
                let mut text: String = string("expected shred index ");
                push_usize(&mut text, i);
                push_str(&mut text, ", got ");
                push_u64(&mut text, shreds[i].index as u64);
                return Err(TurbineError::Deshredding(text));
            }
            assert(in_place(s, i as int));
            i = i + 1;
        }
        let last_flags: u8 = shreds[n - 1].flags;
        if last_flags & LAST_SHRED_FLAG == 0 {
            return Err(TurbineError::Deshredding(string("last shred missing completion flag")));
        }
        let mut block_bytes: Vec<u8> = Vec::new();
        let mut i: usize = 0;
        assert(s.take(0) =~= Seq::empty());
        while i < n
            invariant
                i <= n == shreds@.len(),
                s == shred_models(shreds@),
                block_bytes@ == joined(s.take(i as int)),
            decreases n - i,
        {
            let mut part: Vec<u8> = slice_to_vec(shreds[i].data.as_slice());
            block_bytes.append(&mut part);
            assert(s.take(i + 1).drop_last() =~= s.take(i as int));
            i = i + 1;
        }
        assert(s.take(n as int) =~= s);
        Ok(block_bytes)
    }
}

proof fn lemma_joined_chunks(slot: u64, offset: u16, bytes: Seq<u8>, k: nat)
    requires
        k <= chunk_count(bytes.len()),
    ensures
        joined(data_models(slot, offset, bytes).take(k as int)) == bytes.take(
            if k * MAX_DATA_PER_SHRED <= bytes.len() {
                k * MAX_DATA_PER_SHRED as int
            } else {
                bytes.len() as int
            },
        ),
    decreases k,
{
    let all = data_models(slot, offset, bytes);
    if k == 0 {
        assert(all.take(0) =~= Seq::empty());
        assert(bytes.take(0) =~= Seq::empty());
    } else {
        let p = (k - 1) as nat;
        lemma_joined_chunks(slot, offset, bytes, p);
        assert(all.take(k as int).drop_last() =~= all.take(p as int));
        assert(all.take(k as int).last().1.1.1.0 == chunk(bytes, p as int));
        assert(bytes.take(p * MAX_DATA_PER_SHRED as int) + chunk(bytes, p as int) =~= bytes.take(
            if k * MAX_DATA_PER_SHRED <= bytes.len() {
                k * MAX_DATA_PER_SHRED as int
            } else {
                bytes.len() as int
            },
        ));
    }
}

/// A block that was cut into shreds comes back byte for byte: its data shreds are
/// complete, and joining them gives its bytes.
pub proof fn deshred_inverts_shred(slot: u64, parent_offset: u16, bytes: Seq<u8>)
    requires
        bytes.len() > 0,
        chunk_count(bytes.len()) <= u32::MAX,
    ensures
        is_complete(data_models(slot, parent_offset, bytes)),
        joined(data_models(slot, parent_offset, bytes)) == bytes,
{
    let all = data_models(slot, parent_offset, bytes);
    let n = chunk_count(bytes.len());
    lemma_joined_chunks(slot, parent_offset, bytes, n);
    assert(all.take(n as int) =~= all);
    assert(bytes.take(bytes.len() as int) =~= bytes);
    let flags = all.last().1.1.1.1;
    assert(flags == LAST_SHRED_FLAG);
    assert(0x01u8 & 0x01 != 0) by (bit_vector);
}

/// A block comes back from its shreds.
pub proof fn shredded_block_comes_back(slot: u64, parent_offset: u16, m: BlockModel)
    requires
        <Block as Codec>::fits(m),
        chunk_count(<Block as Codec>::layout(m).len()) <= u32::MAX,
    ensures
        is_complete(data_models(slot, parent_offset, <Block as Codec>::layout(m))),
        block_of(joined(data_models(slot, parent_offset, <Block as Codec>::layout(m)))) == Some(m),
{
    let bytes = <Block as Codec>::layout(m);
    lemma_le_bytes_len((m.0).0 as nat, 8);
    assert(bytes.len() > 0);
    deshred_inverts_shred(slot, parent_offset, bytes);
    lemma_block_of(bytes, m);
}

/// A block that was cut, proven and signed is in its data shreds: they are complete, and the block
/// is what comes out of them. The header tells the slot, the leader, and how many shreds there are
/// of either kind; its signature is over its root, the root is that of the hashes of the shreds,
/// data before code, and each shred has the proof of its own hash.
pub proof fn sealed_batch_holds_the_block<
    H: Fn(&Vec<u8>) -> Digest,
    T: FnOnce(&Vec<Digest>) -> (Digest, Vec<Option<MerkleProof>>),
    S: FnOnce(&Digest) -> Vec<u8>,
>(
    block: &Block,
    parent_slot: u64,
    leader: Digest,
    hash: H,
    tree: T,
    sign: S,
    batch: ShredBatch,
)
    requires
        shredded(block, parent_slot, leader, hash, tree, sign, Ok(batch)),
        chunk_count(<Block as Codec>::layout(block.model()).len()) <= u32::MAX,
    ensures
        ({
            let n = batch.data_shreds@.len();
            let shreds = Seq::new(n, |i: int| batch.data_shreds@[i].shred.model());
            &&& is_complete(shreds)
            &&& block_of(joined(shreds)) == Some(block.model())
            &&& batch.header.slot == block.header.slot
            &&& batch.header.leader == leader
            &&& batch.header.num_data_shreds == n
            &&& batch.header.num_code_shreds == batch.code_shreds@.len()
            &&& sign.ensures((&batch.header.merkle_root,), batch.header.signature)
            &&& exists|leaves: Vec<Digest>, proofs: Vec<Option<MerkleProof>>| #[trigger]
                tree.ensures((&leaves,), (batch.header.merkle_root, proofs)) && proven_by(
                    hash,
                    batch,
                    leaves@,
                    proofs@,
                )
        }),
{
    assert(<Block as Codec>::fits(block.model()));
    let (cut_batch, leaves, root, proofs, signature) = choose|
        cut_batch: UnsignedBatch,
        leaves: Vec<Digest>,
        root: Digest,
        proofs: Vec<Option<MerkleProof>>,
        signature: Vec<u8>,
    | #[trigger]
        built(hash, tree, sign, cut_batch, leaves, root, proofs, signature) && cut_of(
            block,
            parent_slot,
            leader,
            Ok(cut_batch),
        ) && sealed_as(cut_batch, root, proofs@, signature, Ok(batch));
    let bytes = <Block as Codec>::layout(block.model());
    let data = data_models(block.header.slot, (block.header.slot - parent_slot) as u16, bytes);
    let n = batch.data_shreds@.len();
    let shreds = Seq::new(n, |i: int| batch.data_shreds@[i].shred.model());
    let models = data_shred_models(cut_batch.data_shreds@);
    assert(models == data);
    assert forall|i: int| 0 <= i < n implies #[trigger] shreds[i] == models[i] by {
        assert(batch.data_shreds@[i].shred == cut_batch.data_shreds@[i].shred);
    }
    assert(shreds =~= data);
    shredded_block_comes_back(
        block.header.slot,
        (block.header.slot - parent_slot) as u16,
        block.model(),
    );
    assert forall|i: int| 0 <= i < n implies {
        let s = #[trigger] batch.data_shreds@[i];
        &&& hashed(hash, DataShred::layout(s.shred.model()), leaves@[i])
        &&& proofs@[i] is Some
        &&& s.merkle_proof.model() == (proofs@[i]->0).model()
    } by {
        assert(has_proof(proofs@, i));
        assert(batch.data_shreds@[i].shred == cut_batch.data_shreds@[i].shred);
        assert(hashed(
            hash,
            DataShred::layout(cut_batch.data_shreds@[i].shred.model()),
            leaves@[i],
        ));
    }
    assert forall|j: int| 0 <= j < batch.code_shreds@.len() implies {
        let s = #[trigger] batch.code_shreds@[j];
        &&& hashed(hash, CodeShred::layout(s.shred.model()), leaves@[n + j])
        &&& proofs@[n + j] is Some
        &&& s.merkle_proof.model() == (proofs@[n + j]->0).model()
    } by {
        assert(has_proof(proofs@, n + j));
        assert(batch.code_shreds@[j].shred == cut_batch.code_shreds@[j].shred);
        assert(hashed(
            hash,
            CodeShred::layout(cut_batch.code_shreds@[n + j - n].shred.model()),
            leaves@[n + j],
        ));
    }
    assert(proven_by(hash, batch, leaves@, proofs@));
}

/// The leaves are the hashes of the shreds of a batch, data before code, and each shred has the
/// proof of its own leaf.
pub open spec fn proven_by<H: Fn(&Vec<u8>) -> Digest>(
    hash: H,
    batch: ShredBatch,
    leaves: Seq<Digest>,
    proofs: Seq<Option<MerkleProof>>,
) -> bool {
    let n = batch.data_shreds@.len() as int;
    &&& leaves.len() == n + batch.code_shreds@.len()
    &&& forall|i: int|
        0 <= i < n ==> {
            let s = #[trigger] batch.data_shreds@[i];
            &&& hashed(hash, DataShred::layout(s.shred.model()), leaves[i])
            &&& proofs[i] is Some
            &&& s.merkle_proof.model() == (proofs[i]->0).model()
        }
    &&& forall|j: int|
        0 <= j < batch.code_shreds@.len() ==> {
            let s = #[trigger] batch.code_shreds@[j];
            &&& hashed(hash, CodeShred::layout(s.shred.model()), leaves[n + j])
            &&& proofs[n + j] is Some
            &&& s.merkle_proof.model() == (proofs[n + j]->0).model()
        }
}

} // verus!
