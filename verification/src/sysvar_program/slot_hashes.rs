//! The hashes of the blocks of recent slots.

use crate::bytes::lemma_le_bytes_len;
use crate::codec::{Codec, Fault};
use crate::digest::Digest;
use crate::sysvar_program::{lemma_equal_items, Sysvar};
use vstd::prelude::*;

verus! {

pub type SlotHash = (u64, Digest);

#[derive(Clone, Debug, Default, PartialEq, Eq)]
pub struct SlotHashes(pub Vec<SlotHash>);

/// Laid out as what it holds.
impl Codec for SlotHashes {
    type M = <Vec<SlotHash> as Codec>::M;

    open spec fn model(&self) -> Self::M {
        self.0.model()
    }

    open spec fn well_formed(&self) -> bool {
        self.0.well_formed()
    }

    open spec fn layout(m: Self::M) -> Seq<u8> {
        <Vec<SlotHash> as Codec>::layout(m)
    }

    open spec fn fits(m: Self::M) -> bool {
        <Vec<SlotHash> as Codec>::fits(m)
    }

    open spec fn fault(bytes: Seq<u8>) -> Fault {
        <Vec<SlotHash> as Codec>::fault(bytes)
    }

    proof fn prefix_free(a: Self::M, b: Self::M, s: Seq<u8>, t: Seq<u8>) {
        <Vec<SlotHash> as Codec>::prefix_free(a, b, s, t);
    }

    fn encode(&self, out: &mut Vec<u8>) -> (ok: bool) {
        self.0.encode(out)
    }

    fn decode<'a>(input: &'a [u8]) -> (r: Result<(Self, &'a [u8]), Fault>) {
        match <Vec<SlotHash> as Codec>::decode(input) {
            Ok((inner, rest)) => Ok((SlotHashes(inner), rest)),
            Err(f) => Err(f),
        }
    }
}

impl Sysvar for SlotHashes {
    open spec fn seed() -> Seq<char> {
        "sysvar_slot_hashes"@
    }

    open spec fn room() -> usize {
        36868
    }

    fn id_seed() -> (r: &'static str) {
        "sysvar_slot_hashes"
    }

    fn size_of() -> (r: usize) {
        36868
    }
}

impl SlotHashes {
    pub fn new(slot_hashes: Vec<SlotHash>) -> (r: Self)
        ensures
            r.0 == slot_hashes,
    {
        SlotHashes(slot_hashes)
    }

    /// The hash that stands first for a slot.
    pub fn get(&self, slot: u64) -> (r: Option<&Digest>)
        ensures
            match r {
                Some(h) => exists|i: int|
                    {
                        &&& 0 <= i < self.0@.len()
                        &&& #[trigger] self.0@[i] == (slot, *h)
                        &&& forall|k: int| 0 <= k < i ==> (#[trigger] self.0@[k]).0 != slot
                    },
                None => forall|i: int| 0 <= i < self.0@.len() ==> (#[trigger] self.0@[i]).0 != slot,
            },
    {
        let n: usize = self.0.len();
        let mut i: usize = 0;
        while i < n
            invariant
                i <= n == self.0@.len(),
                forall|k: int| 0 <= k < i ==> (#[trigger] self.0@[k]).0 != slot,
            decreases n - i,
        {
            if self.0[i].0 == slot {
                return Some(&self.0[i].1);
            }
            i = i + 1;
        }
        None
    }

    pub fn len(&self) -> (r: usize)
        ensures
            r == self.0@.len(),
    {
        self.0.len()
    }

    pub fn is_empty(&self) -> (r: bool)
        ensures
            r == (self.0@.len() == 0),
    {
        self.0.len() == 0
    }
}

/// As many hashes as are kept take up no more room than they are given.
pub proof fn slot_hashes_fit_their_room(m: Seq<SlotHash>)
    requires
        m.len() <= 512,
    ensures
        <SlotHashes as Codec>::layout(m).len() <= SlotHashes::room(),
{
    lemma_le_bytes_len(m.len(), 4);
    assert forall|x: SlotHash| (#[trigger] <SlotHash as Codec>::layout(x)).len() == 72 by {
        lemma_le_bytes_len(x.0 as nat, 8);
    }
    lemma_equal_items::<SlotHash>(m, 72);
}

} // verus!
