//! The hashes of recent blocks.

use crate::bytes::lemma_le_bytes_len;
use crate::codec::{Codec, Fault};
use crate::digest::Digest;
use crate::sysvar_program::{lemma_equal_items, Sysvar};
use vstd::prelude::*;

verus! {

#[derive(Clone, Debug, Default, PartialEq, Eq)]
pub struct RecentBlockhashes(pub Vec<Digest>);

/// Laid out as what it holds.
impl Codec for RecentBlockhashes {
    type M = <Vec<Digest> as Codec>::M;

    open spec fn model(&self) -> Self::M {
        self.0.model()
    }

    open spec fn well_formed(&self) -> bool {
        self.0.well_formed()
    }

    open spec fn layout(m: Self::M) -> Seq<u8> {
        <Vec<Digest> as Codec>::layout(m)
    }

    open spec fn fits(m: Self::M) -> bool {
        <Vec<Digest> as Codec>::fits(m)
    }

    open spec fn fault(bytes: Seq<u8>) -> Fault {
        <Vec<Digest> as Codec>::fault(bytes)
    }

    proof fn prefix_free(a: Self::M, b: Self::M, s: Seq<u8>, t: Seq<u8>) {
        <Vec<Digest> as Codec>::prefix_free(a, b, s, t);
    }

    fn encode(&self, out: &mut Vec<u8>) -> (ok: bool) {
        self.0.encode(out)
    }

    fn decode<'a>(input: &'a [u8]) -> (r: Result<(Self, &'a [u8]), Fault>) {
        match <Vec<Digest> as Codec>::decode(input) {
            Ok((inner, rest)) => Ok((RecentBlockhashes(inner), rest)),
            Err(f) => Err(f),
        }
    }
}

impl Sysvar for RecentBlockhashes {
    open spec fn seed() -> Seq<char> {
        "sysvar_recent_blockhashes"@
    }

    open spec fn room() -> usize {
        19204
    }

    fn id_seed() -> (r: &'static str) {
        "sysvar_recent_blockhashes"
    }

    fn size_of() -> (r: usize) {
        19204
    }
}

impl RecentBlockhashes {
    pub fn new(hashes: Vec<Digest>) -> (r: Self)
        ensures
            r.0 == hashes,
    {
        RecentBlockhashes(hashes)
    }

    pub fn len(&self) -> (r: usize)
        ensures
            r == self.0@.len(),
    {
        self.0.len()
    }

    pub fn is_empty(&self) -> (r: bool)
        ensures
            r == (self.0@.len() == 0),
    {
        self.0.len() == 0
    }

    /// Whether a hash is among them.
    pub fn contains(&self, blockhash: &Digest) -> (r: bool)
        ensures
            r == self.0@.contains(*blockhash),
    {
        let n: usize = self.0.len();
        let mut i: usize = 0;
        while i < n
            invariant
                i <= n == self.0@.len(),
                forall|k: int| 0 <= k < i ==> self.0@[k] != *blockhash,
            decreases n - i,
        {
            if self.0[i] == *blockhash {
                assert(self.0@[i as int] == *blockhash);
                return true;
            }
            i = i + 1;
        }
        false
    }
}

/// As many hashes as are kept take up no more room than they are given.
pub proof fn blockhashes_fit_their_room(m: Seq<Digest>)
    requires
        m.len() <= 300,
    ensures
        <RecentBlockhashes as Codec>::layout(m).len() <= RecentBlockhashes::room(),
{
    lemma_le_bytes_len(m.len(), 4);
    lemma_equal_items::<Digest>(m, 64);
}

} // verus!
