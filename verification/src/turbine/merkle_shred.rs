//! Shreds with Merkle proofs, and the signed header that the proofs are checked against.
//!
//! A leader signs one Merkle root per slot, over the hashes of all shreds of the slot.

use crate::codec::{to_vec, Codec, Fault};
use crate::digest::Digest;
use crate::merkle::MerkleProof;
use crate::storage::shred::{CodeShred, DataShred};
use vstd::prelude::*;
use vstd::slice::{slice_subrange, slice_to_vec};

verus! {

/// Flag of the last data shred of a slot.
pub const LAST_SHRED_FLAG: u8 = 0x01;

/// Sent once per slot: the Merkle root signed by the leader. The signature is kept in
/// its binary form.
#[derive(Debug, PartialEq, Eq)]
pub struct ShredBatchHeader {
    pub slot: u64,
    pub leader: Digest,
    pub merkle_root: Digest,
    pub signature: Vec<u8>,
    pub num_data_shreds: u32,
    pub num_code_shreds: u32,
}

/// Data shred with a Merkle proof in place of a signature.
#[derive(Debug, PartialEq, Eq)]
pub struct MerkleDataShred {
    pub shred: DataShred,
    pub leader: Digest,
    pub merkle_proof: MerkleProof,
    /// The bytes of `shred`, kept for hashing and erasure coding; not sent.
    pub cached_bytes: Vec<u8>,
}

/// Code shred with a Merkle proof in place of a signature.
#[derive(Debug, PartialEq, Eq)]
pub struct MerkleCodeShred {
    pub shred: CodeShred,
    pub leader: Digest,
    pub merkle_proof: MerkleProof,
    pub cached_bytes: Vec<u8>,
}

#[derive(Clone, Debug, PartialEq, Eq)]
pub enum MerkleShred {
    Data(MerkleDataShred),
    Code(MerkleCodeShred),
}

impl Clone for MerkleDataShred {
    fn clone(&self) -> (r: Self)
        ensures
            r.model() == self.model(),
            self.well_formed() ==> r.well_formed(),
    {
        MerkleDataShred {
            shred: self.shred.clone(),
            leader: self.leader,
            merkle_proof: self.merkle_proof.clone(),
            cached_bytes: slice_to_vec(self.cached_bytes.as_slice()),
        }
    }
}

impl Clone for MerkleCodeShred {
    fn clone(&self) -> (r: Self)
        ensures
            r.model() == self.model(),
            self.well_formed() ==> r.well_formed(),
    {
        MerkleCodeShred {
            shred: self.shred.clone(),
            leader: self.leader,
            merkle_proof: self.merkle_proof.clone(),
            cached_bytes: slice_to_vec(self.cached_bytes.as_slice()),
        }
    }
}

/// What a batch header stands for.
pub struct HeaderModel {
    pub slot: u64,
    pub leader: Digest,
    pub merkle_root: Digest,
    pub signature: Seq<u8>,
    pub num_data_shreds: u32,
    pub num_code_shreds: u32,
}

impl ShredBatchHeader {
    pub open spec fn model(&self) -> HeaderModel {
        HeaderModel {
            slot: self.slot,
            leader: self.leader,
            merkle_root: self.merkle_root,
            signature: self.signature@,
            num_data_shreds: self.num_data_shreds,
            num_code_shreds: self.num_code_shreds,
        }
    }
}

impl Clone for ShredBatchHeader {
    fn clone(&self) -> (r: Self)
        ensures
            r.model() == self.model(),
    {
        ShredBatchHeader {
            slot: self.slot,
            leader: self.leader,
            merkle_root: self.merkle_root,
            signature: slice_to_vec(self.signature.as_slice()),
            num_data_shreds: self.num_data_shreds,
            num_code_shreds: self.num_code_shreds,
        }
    }
}

/// The parts of a data shred with proof in the order of its layout.
pub type MerkleDataFields = (DataShred, (Digest, MerkleProof));

/// The parts of a code shred with proof in the order of its layout.
pub type MerkleCodeFields = (CodeShred, (Digest, MerkleProof));

impl Codec for MerkleDataShred {
    type M = (<DataShred as Codec>::M, (Digest, <MerkleProof as Codec>::M));

    open spec fn model(&self) -> Self::M {
        (self.shred.model(), (self.leader, self.merkle_proof.model()))
    }

    /// The kept bytes are those of the shred.
    open spec fn well_formed(&self) -> bool {
        &&& DataShred::fits(self.shred.model())
        &&& self.cached_bytes@ == DataShred::layout(self.shred.model())
    }

    open spec fn layout(m: Self::M) -> Seq<u8> {
        <MerkleDataFields as Codec>::layout(m)
    }

    open spec fn fits(m: Self::M) -> bool {
        <MerkleDataFields as Codec>::fits(m)
    }

    open spec fn fault(bytes: Seq<u8>) -> Fault {
        <MerkleDataFields as Codec>::fault(bytes)
    }

    proof fn prefix_free(a: Self::M, b: Self::M, s: Seq<u8>, t: Seq<u8>) {
        <MerkleDataFields as Codec>::prefix_free(a, b, s, t);
    }

    fn encode(&self, out: &mut Vec<u8>) -> (ok: bool) {
        let first = self.shred.encode(out);
        let _ = self.leader.encode(out);
        let last = self.merkle_proof.encode(out);
        assert(first && last ==> out@ =~= old(out)@ + Self::layout(self.model()));
        first && last
    }

    fn decode<'a>(input: &'a [u8]) -> (r: Result<(Self, &'a [u8]), Fault>) {
        match <MerkleDataFields as Codec>::decode(input) {
            Ok(((shred, (leader, merkle_proof)), rest)) => match to_vec(&shred) {
                Ok(cached_bytes) => Ok(
                    (MerkleDataShred { shred, leader, merkle_proof, cached_bytes }, rest),
                ),
                Err(_) => Err(Fault::Short),
            },
            Err(f) => Err(f),
        }
    }
}

impl Codec for MerkleCodeShred {
    type M = (<CodeShred as Codec>::M, (Digest, <MerkleProof as Codec>::M));

    open spec fn model(&self) -> Self::M {
        (self.shred.model(), (self.leader, self.merkle_proof.model()))
    }

    /// The kept bytes are those of the shred.
    open spec fn well_formed(&self) -> bool {
        &&& CodeShred::fits(self.shred.model())
        &&& self.cached_bytes@ == CodeShred::layout(self.shred.model())
    }

    open spec fn layout(m: Self::M) -> Seq<u8> {
        <MerkleCodeFields as Codec>::layout(m)
    }

    open spec fn fits(m: Self::M) -> bool {
        <MerkleCodeFields as Codec>::fits(m)
    }

    open spec fn fault(bytes: Seq<u8>) -> Fault {
        <MerkleCodeFields as Codec>::fault(bytes)
    }

    proof fn prefix_free(a: Self::M, b: Self::M, s: Seq<u8>, t: Seq<u8>) {
        <MerkleCodeFields as Codec>::prefix_free(a, b, s, t);
    }

    fn encode(&self, out: &mut Vec<u8>) -> (ok: bool) {
        let first = self.shred.encode(out);
        let _ = self.leader.encode(out);
        let last = self.merkle_proof.encode(out);
        assert(first && last ==> out@ =~= old(out)@ + Self::layout(self.model()));
        first && last
    }

    fn decode<'a>(input: &'a [u8]) -> (r: Result<(Self, &'a [u8]), Fault>) {
        match <MerkleCodeFields as Codec>::decode(input) {
            Ok(((shred, (leader, merkle_proof)), rest)) => match to_vec(&shred) {
                Ok(cached_bytes) => Ok(
                    (MerkleCodeShred { shred, leader, merkle_proof, cached_bytes }, rest),
                ),
                Err(_) => Err(Fault::Short),
            },
            Err(f) => Err(f),
        }
    }
}

/// What a shred of either kind stands for.
pub enum MerkleShredModel {
    Data(<MerkleDataShred as Codec>::M),
    Code(<MerkleCodeShred as Codec>::M),
}

impl Codec for MerkleShred {
    type M = MerkleShredModel;

    open spec fn model(&self) -> MerkleShredModel {
        match *self {
            MerkleShred::Data(s) => MerkleShredModel::Data(s.model()),
            MerkleShred::Code(s) => MerkleShredModel::Code(s.model()),
        }
    }

    open spec fn well_formed(&self) -> bool {
        match *self {
            MerkleShred::Data(s) => s.well_formed(),
            MerkleShred::Code(s) => s.well_formed(),
        }
    }

    open spec fn layout(m: MerkleShredModel) -> Seq<u8> {
        match m {
            MerkleShredModel::Data(d) => seq![0u8] + MerkleDataShred::layout(d),
            MerkleShredModel::Code(c) => seq![1u8] + MerkleCodeShred::layout(c),
        }
    }

    open spec fn fits(m: MerkleShredModel) -> bool {
        match m {
            MerkleShredModel::Data(d) => MerkleDataShred::fits(d),
            MerkleShredModel::Code(c) => MerkleCodeShred::fits(c),
        }
    }

    open spec fn fault(bytes: Seq<u8>) -> Fault {
        let tail = bytes.drop_first();
        if bytes.len() == 0 {
            Fault::Short
        } else if bytes[0] == 0 {
            MerkleDataShred::fault(tail)
        } else if bytes[0] == 1 {
            MerkleCodeShred::fault(tail)
        } else {
            Fault::Variant(bytes[0])
        }
    }

    proof fn prefix_free(a: MerkleShredModel, b: MerkleShredModel, s: Seq<u8>, t: Seq<u8>) {
        let x = Self::layout(a) + s;
        let y = Self::layout(b) + t;
        assert(x[0] == y[0]);
        match (a, b) {
            (MerkleShredModel::Data(v), MerkleShredModel::Data(w)) => {
                assert(x.drop_first() =~= MerkleDataShred::layout(v) + s);
                assert(y.drop_first() =~= MerkleDataShred::layout(w) + t);
                MerkleDataShred::prefix_free(v, w, s, t);
            },
            (MerkleShredModel::Code(v), MerkleShredModel::Code(w)) => {
                assert(x.drop_first() =~= MerkleCodeShred::layout(v) + s);
                assert(y.drop_first() =~= MerkleCodeShred::layout(w) + t);
                MerkleCodeShred::prefix_free(v, w, s, t);
            },
            (MerkleShredModel::Data(v), MerkleShredModel::Code(w)) => {
                assert(x[0] == 0 && y[0] == 1);
            },
            (MerkleShredModel::Code(v), MerkleShredModel::Data(w)) => {
                assert(x[0] == 1 && y[0] == 0);
            },
        }
    }

    fn encode(&self, out: &mut Vec<u8>) -> (ok: bool) {
        let ok: bool;
        match self {
            MerkleShred::Data(s) => {
                out.push(0);
                ok = s.encode(out);
            },
            MerkleShred::Code(s) => {
                out.push(1);
                ok = s.encode(out);
            },
        }
        assert(ok ==> out@ =~= old(out)@ + Self::layout(self.model()));
        ok
    }

    fn decode<'a>(input: &'a [u8]) -> (r: Result<(Self, &'a [u8]), Fault>) {
        let len: usize = input.len();
        if len > 0 && input[0] == 0 {
            let tail = slice_subrange(input, 1, len);
            assert(input@ =~= seq![0u8] + tail@);
            let f: Fault = match MerkleDataShred::decode(tail) {
                Ok((v, rest)) => {
                    let v = MerkleShred::Data(v);
                    assert(input@ =~= Self::layout(v.model()) + rest@);
                    return Ok((v, rest));
                },
                Err(f) => f,
            };
            assert forall|m: MerkleShredModel, rest: Seq<u8>| Self::fits(m) implies input@
                != #[trigger] (Self::layout(m) + rest) by {
                let y = Self::layout(m) + rest;
                if input@ == y {
                    assert(y[0] == 0);
                    assert(m is Data);
                    assert(tail@ =~= y.drop_first());
                    assert(y.drop_first() =~= MerkleDataShred::layout(m->Data_0) + rest);
                }
            }
            return Err(f);
        }
        if len > 0 && input[0] == 1 {
            let tail = slice_subrange(input, 1, len);
            assert(input@ =~= seq![1u8] + tail@);
            let f: Fault = match MerkleCodeShred::decode(tail) {
                Ok((v, rest)) => {
                    let v = MerkleShred::Code(v);
                    assert(input@ =~= Self::layout(v.model()) + rest@);
                    return Ok((v, rest));
                },
                Err(f) => f,
            };
            assert forall|m: MerkleShredModel, rest: Seq<u8>| Self::fits(m) implies input@
                != #[trigger] (Self::layout(m) + rest) by {
                let y = Self::layout(m) + rest;
                if input@ == y {
                    assert(y[0] == 1);
                    assert(m is Code);
                    assert(tail@ =~= y.drop_first());
                    assert(y.drop_first() =~= MerkleCodeShred::layout(m->Code_0) + rest);
                }
            }
            return Err(f);
        }
        assert forall|m: MerkleShredModel, rest: Seq<u8>| Self::fits(m) implies input@
            != #[trigger] (Self::layout(m) + rest) by {
            let y = Self::layout(m) + rest;
            assert(y.len() > 0 && y[0] <= 1);
        }
        if len == 0 {
            Err(Fault::Short)
        } else {
            Err(Fault::Variant(input[0]))
        }
    }
}

/// The check takes whatever it is given.
pub open spec fn checks_all<V: Fn(&MerkleProof, &Vec<u8>, &Digest) -> bool>(check: V) -> bool {
    forall|proof: MerkleProof, bytes: Vec<u8>, root: Digest| #[trigger]
        check.requires((&proof, &bytes, &root))
}

/// What the check can say of a proof: whether it leads from a leaf, the hash of a shred's
/// bytes, to a root.
pub open spec fn verdict<V: Fn(&MerkleProof, &Vec<u8>, &Digest) -> bool>(
    check: V,
    proof: (Seq<Digest>, Seq<u8>),
    bytes: Seq<u8>,
    root: Digest,
    ok: bool,
) -> bool {
    exists|p: MerkleProof, b: Vec<u8>|
        p.model() == proof && b@ == bytes && #[trigger] check.ensures((&p, &b, &root), ok)
}

/// What the check can say of a data shred.
pub open spec fn data_verdict<V: Fn(&MerkleProof, &Vec<u8>, &Digest) -> bool>(
    check: V,
    m: <MerkleDataShred as Codec>::M,
    root: Digest,
    ok: bool,
) -> bool {
    verdict(check, (m.1).1, DataShred::layout(m.0), root, ok)
}

/// What the check can say of a code shred.
pub open spec fn code_verdict<V: Fn(&MerkleProof, &Vec<u8>, &Digest) -> bool>(
    check: V,
    m: <MerkleCodeShred as Codec>::M,
    root: Digest,
    ok: bool,
) -> bool {
    verdict(check, (m.1).1, CodeShred::layout(m.0), root, ok)
}

impl ShredBatchHeader {
    /// Verify the signature over the Merkle root: `check` says whether a signature is the
    /// leader's over a root.
    pub fn verify<C: FnOnce(&Vec<u8>, &Digest) -> bool>(&self, check: C) -> (r: bool)
        requires
            check.requires((&self.signature, &self.merkle_root)),
        ensures
            check.ensures((&self.signature, &self.merkle_root), r),
    {
        check(&self.signature, &self.merkle_root)
    }
}

impl MerkleDataShred {
    /// Create a new MerkleDataShred without a proof yet (proof attached later).
    pub fn new(shred: DataShred, leader: Digest) -> (r: Self)
        requires
            DataShred::fits(shred.model()),
        ensures
            r.well_formed(),
            r.shred == shred,
            r.leader == leader,
            r.merkle_proof.hashes@.len() == 0,
            r.merkle_proof.path@.len() == 0,
    {
        let mut cached_bytes: Vec<u8> = Vec::new();
        let _ = shred.encode(&mut cached_bytes);
        assert(cached_bytes@ =~= DataShred::layout(shred.model()));
        MerkleDataShred { shred, leader, merkle_proof: MerkleProof::empty(), cached_bytes }
    }

    /// The same shred with its proof attached.
    pub fn with_proof(self, merkle_proof: MerkleProof) -> (r: Self)
        ensures
            r.shred == self.shred,
            r.leader == self.leader,
            r.merkle_proof == merkle_proof,
            self.well_formed() ==> r.well_formed(),
    {
        MerkleDataShred {
            shred: self.shred,
            leader: self.leader,
            merkle_proof,
            cached_bytes: self.cached_bytes,
        }
    }

    /// Hash of this shred: the leaf value for Merkle tree construction.
    pub fn shred_hash<H: FnOnce(&Vec<u8>) -> Digest>(&self, hash: H) -> (r: Digest)
        requires
            self.well_formed(),
            forall|bytes: Vec<u8>| #[trigger] hash.requires((&bytes,)),
        ensures
            exists|bytes: Vec<u8>|
                bytes@ == DataShred::layout(self.shred.model()) && #[trigger] hash.ensures(
                    (&bytes,),
                    r,
                ),
    {
        hash(&self.cached_bytes)
    }

    /// Verify the Merkle proof against a known root: `check` hashes the bytes that it is
    /// given and says whether the proof leads from there to the root.
    pub fn verify<V: Fn(&MerkleProof, &Vec<u8>, &Digest) -> bool>(
        &self,
        merkle_root: &Digest,
        check: V,
    ) -> (r: bool)
        requires
            self.well_formed(),
            checks_all(check),
        ensures
            data_verdict(check, self.model(), *merkle_root, r),
    {
        assert(check.requires((&self.merkle_proof, &self.cached_bytes, merkle_root)));
        check(&self.merkle_proof, &self.cached_bytes, merkle_root)
    }

    /// The bytes of the shred: what is hashed for the leaf of the Merkle tree, and what
    /// is erasure coded.
    pub fn shred_bytes(&self) -> (r: &[u8])
        requires
            self.well_formed(),
        ensures
            r@ == DataShred::layout(self.shred.model()),
    {
        self.cached_bytes.as_slice()
    }

    pub fn slot(&self) -> (r: u64)
        ensures
            r == self.shred.slot,
    {
        self.shred.slot
    }

    pub fn index(&self) -> (r: u32)
        ensures
            r == self.shred.index,
    {
        self.shred.index
    }

    pub fn is_last(&self) -> (r: bool)
        ensures
            r == has_last_flag(self.shred.flags),
    {
        let flags: u8 = self.shred.flags;
        flags & 0x01 != 0
    }
}

/// The lowest bit of the flags marks the last data shred of a slot.
pub open spec fn has_last_flag(flags: u8) -> bool {
    flags & 0x01 != 0
}

impl MerkleCodeShred {
    /// Create a new MerkleCodeShred without a proof yet (proof attached later).
    pub fn new(shred: CodeShred, leader: Digest) -> (r: Self)
        requires
            CodeShred::fits(shred.model()),
        ensures
            r.well_formed(),
            r.shred == shred,
            r.leader == leader,
            r.merkle_proof.hashes@.len() == 0,
            r.merkle_proof.path@.len() == 0,
    {
        let mut cached_bytes: Vec<u8> = Vec::new();
        let _ = shred.encode(&mut cached_bytes);
        assert(cached_bytes@ =~= CodeShred::layout(shred.model()));
        MerkleCodeShred { shred, leader, merkle_proof: MerkleProof::empty(), cached_bytes }
    }

    /// The same shred with its proof attached.
    pub fn with_proof(self, merkle_proof: MerkleProof) -> (r: Self)
        ensures
            r.shred == self.shred,
            r.leader == self.leader,
            r.merkle_proof == merkle_proof,
            self.well_formed() ==> r.well_formed(),
    {
        MerkleCodeShred {
            shred: self.shred,
            leader: self.leader,
            merkle_proof,
            cached_bytes: self.cached_bytes,
        }
    }

    /// Hash of this shred: the leaf value for Merkle tree construction.
    pub fn shred_hash<H: FnOnce(&Vec<u8>) -> Digest>(&self, hash: H) -> (r: Digest)
        requires
            self.well_formed(),
            forall|bytes: Vec<u8>| #[trigger] hash.requires((&bytes,)),
        ensures
            exists|bytes: Vec<u8>|
                bytes@ == CodeShred::layout(self.shred.model()) && #[trigger] hash.ensures(
                    (&bytes,),
                    r,
                ),
    {
        hash(&self.cached_bytes)
    }

    /// Verify the Merkle proof against a known root: `check` hashes the bytes that it is
    /// given and says whether the proof leads from there to the root.
    pub fn verify<V: Fn(&MerkleProof, &Vec<u8>, &Digest) -> bool>(
        &self,
        merkle_root: &Digest,
        check: V,
    ) -> (r: bool)
        requires
            self.well_formed(),
            checks_all(check),
        ensures
            code_verdict(check, self.model(), *merkle_root, r),
    {
        assert(check.requires((&self.merkle_proof, &self.cached_bytes, merkle_root)));
        check(&self.merkle_proof, &self.cached_bytes, merkle_root)
    }

    /// The bytes of the shred: what is hashed for the leaf of the Merkle tree.
    pub fn shred_bytes(&self) -> (r: &[u8])
        requires
            self.well_formed(),
        ensures
            r@ == CodeShred::layout(self.shred.model()),
    {
        self.cached_bytes.as_slice()
    }

    pub fn slot(&self) -> (r: u64)
        ensures
            r == self.shred.slot,
    {
        self.shred.slot
    }

    pub fn index(&self) -> (r: u32)
        ensures
            r == self.shred.index,
    {
        self.shred.index
    }
}

impl MerkleShred {
    pub open spec fn slot_of(&self) -> u64 {
        match *self {
            MerkleShred::Data(s) => s.shred.slot,
            MerkleShred::Code(s) => s.shred.slot,
        }
    }

    pub open spec fn index_of(&self) -> u32 {
        match *self {
            MerkleShred::Data(s) => s.shred.index,
            MerkleShred::Code(s) => s.shred.index,
        }
    }

    pub open spec fn leader_of(&self) -> Digest {
        match *self {
            MerkleShred::Data(s) => s.leader,
            MerkleShred::Code(s) => s.leader,
        }
    }

    pub fn slot(&self) -> (r: u64)
        ensures
            r == self.slot_of(),
            match *self {
                MerkleShred::Data(s) => r == s.shred.slot,
                MerkleShred::Code(s) => r == s.shred.slot,
            },
    {
        match self {
            MerkleShred::Data(s) => s.slot(),
            MerkleShred::Code(s) => s.slot(),
        }
    }

    pub fn index(&self) -> (r: u32)
        ensures
            r == self.index_of(),
            match *self {
                MerkleShred::Data(s) => r == s.shred.index,
                MerkleShred::Code(s) => r == s.shred.index,
            },
    {
        match self {
            MerkleShred::Data(s) => s.index(),
            MerkleShred::Code(s) => s.index(),
        }
    }

    pub fn leader(&self) -> (r: Digest)
        ensures
            r == self.leader_of(),
            match *self {
                MerkleShred::Data(s) => r == s.leader,
                MerkleShred::Code(s) => r == s.leader,
            },
    {
        match self {
            MerkleShred::Data(s) => s.leader,
            MerkleShred::Code(s) => s.leader,
        }
    }

    /// What the check can say of the shred.
    pub open spec fn verdict<V: Fn(&MerkleProof, &Vec<u8>, &Digest) -> bool>(
        &self,
        check: V,
        root: Digest,
        ok: bool,
    ) -> bool {
        match *self {
            MerkleShred::Data(s) => data_verdict(check, s.model(), root, ok),
            MerkleShred::Code(s) => code_verdict(check, s.model(), root, ok),
        }
    }

    /// Verify the Merkle proof against a known root.
    pub fn verify<V: Fn(&MerkleProof, &Vec<u8>, &Digest) -> bool>(
        &self,
        merkle_root: &Digest,
        check: V,
    ) -> (r: bool)
        requires
            self.well_formed(),
            checks_all(check),
        ensures
            self.verdict(check, *merkle_root, r),
    {
        match self {
            MerkleShred::Data(s) => s.verify(merkle_root, check),
            MerkleShred::Code(s) => s.verify(merkle_root, check),
        }
    }
}

/// The header of a slot's shreds: `signature` is the leader's over the Merkle root.
pub fn build_batch_header(
    slot: u64,
    leader: Digest,
    data_shreds: &[MerkleDataShred],
    code_shreds: &[MerkleCodeShred],
    signature: Vec<u8>,
    merkle_root: Digest,
) -> (r: ShredBatchHeader)
    requires
        data_shreds@.len() <= u32::MAX,
        code_shreds@.len() <= u32::MAX,
    ensures
        r.slot == slot,
        r.leader == leader,
        r.merkle_root == merkle_root,
        r.signature == signature,
        r.num_data_shreds == data_shreds@.len(),
        r.num_code_shreds == code_shreds@.len(),
{
    ShredBatchHeader {
        slot,
        leader,
        merkle_root,
        signature,
        num_data_shreds: data_shreds.len() as u32,
        num_code_shreds: code_shreds.len() as u32,
    }
}

/// A merkle data shred is written field by field, in this order.
pub proof fn merkle_data_shred_is_written_in_order(x: MerkleDataShred)
    ensures
        <MerkleDataShred as Codec>::layout(x.model()) == <DataShred as Codec>::layout(x.shred.model())
            + <Digest as Codec>::layout(x.leader.model())
            + <MerkleProof as Codec>::layout(x.merkle_proof.model()),
{
}

/// A merkle code shred is written field by field, in this order.
pub proof fn merkle_code_shred_is_written_in_order(x: MerkleCodeShred)
    ensures
        <MerkleCodeShred as Codec>::layout(x.model()) == <CodeShred as Codec>::layout(x.shred.model())
            + <Digest as Codec>::layout(x.leader.model())
            + <MerkleProof as Codec>::layout(x.merkle_proof.model()),
{
}

/// A shred begins with the number of its kind: data, then code.
pub proof fn shred_kinds_are_numbered(x: MerkleShred)
    ensures
        MerkleShred::layout(x.model()) == match x {
            MerkleShred::Data(s) => seq![0u8] + MerkleDataShred::layout(s.model()),
            MerkleShred::Code(s) => seq![1u8] + MerkleCodeShred::layout(s.model()),
        },
{
}

/// The verdict on a shred is that of the check on its proof, its bytes and the root: where the check
/// can say but one thing of these, that is the verdict.
pub proof fn verdict_is_that_of_the_check<V: Fn(&MerkleProof, &Vec<u8>, &Digest) -> bool>(
    check: V,
    shred: MerkleShred,
    root: Digest,
    ok: bool,
    good: bool,
)
    requires
        shred.verdict(check, root, ok),
        forall|p: MerkleProof, b: Vec<u8>, o: bool|
            (match shred {
                MerkleShred::Data(s) => p.model() == s.merkle_proof.model() && b@
                    == DataShred::layout(s.shred.model()),
                MerkleShred::Code(s) => p.model() == s.merkle_proof.model() && b@
                    == CodeShred::layout(s.shred.model()),
            }) && #[trigger] check.ensures((&p, &b, &root), o) ==> o == good,
    ensures
        ok == good,
{
}

} // verus!
