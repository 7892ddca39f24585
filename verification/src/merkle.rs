//! Proofs that something stands under a Merkle root.

use crate::codec::{lemma_byte_model, models, Codec, Fault};
use crate::digest::Digest;
use vstd::prelude::*;
use vstd::slice::slice_to_vec;

verus! {

/// The way from a leaf to the root: the sibling at each level, and on which side it is.
#[derive(Debug, PartialEq, Eq)]
pub struct MerkleProof {
    pub hashes: Vec<Digest>,
    pub path: Vec<u8>,
}

impl MerkleProof {
    /// A proof that has yet to be filled in.
    pub fn empty() -> (r: Self)
        ensures
            r.hashes@.len() == 0,
            r.path@.len() == 0,
    {
        MerkleProof { hashes: Vec::new(), path: Vec::new() }
    }
}

impl Clone for MerkleProof {
    fn clone(&self) -> (r: Self)
        ensures
            r.model() == self.model(),
    {
        MerkleProof {
            hashes: slice_to_vec(self.hashes.as_slice()),
            path: slice_to_vec(self.path.as_slice()),
        }
    }
}

/// Digests in a list stand for themselves.
pub proof fn lemma_digest_model(items: Seq<Digest>)
    ensures
        models::<Digest>(items) == items,
{
    assert(models::<Digest>(items) =~= items);
}

/// The fields of a Merkle proof in the order of its layout.
pub type MerkleProofFields = (Vec<Digest>, Vec<u8>);

impl Codec for MerkleProof {
    type M = (Seq<Digest>, Seq<u8>);

    open spec fn model(&self) -> Self::M {
        (self.hashes@, self.path@)
    }

    open spec fn well_formed(&self) -> bool {
        true
    }

    open spec fn layout(m: Self::M) -> Seq<u8> {
        <MerkleProofFields as Codec>::layout(m)
    }

    open spec fn fits(m: Self::M) -> bool {
        <MerkleProofFields as Codec>::fits(m)
    }

    open spec fn fault(bytes: Seq<u8>) -> Fault {
        <MerkleProofFields as Codec>::fault(bytes)
    }

    proof fn prefix_free(a: Self::M, b: Self::M, s: Seq<u8>, t: Seq<u8>) {
        <MerkleProofFields as Codec>::prefix_free(a, b, s, t);
    }

    fn encode(&self, out: &mut Vec<u8>) -> (ok: bool) {
        let first = self.hashes.encode(out);
        let second = self.path.encode(out);
        proof {
            lemma_digest_model(self.hashes@);
            lemma_byte_model(self.path@);
            assert(first && second ==> out@ =~= old(out)@ + Self::layout(self.model()));
        }
        first && second
    }

    fn decode<'a>(input: &'a [u8]) -> (r: Result<(Self, &'a [u8]), Fault>) {
        match <MerkleProofFields as Codec>::decode(input) {
            Ok(((hashes, path), rest)) => {
                proof {
                    lemma_digest_model(hashes@);
                    lemma_byte_model(path@);
                }
                Ok((MerkleProof { hashes, path }, rest))
            },
            Err(f) => Err(f),
        }
    }
}

/// A merkle proof is written field by field, in this order.
pub proof fn merkle_proof_is_written_in_order(x: MerkleProof)
    ensures
        <MerkleProof as Codec>::layout(x.model()) == <Vec<Digest> as Codec>::layout(x.hashes.model())
            + <Vec<u8> as Codec>::layout(x.path.model()),
{
    lemma_byte_model(x.path@);
    lemma_digest_model(x.hashes@);
}

} // verus!
