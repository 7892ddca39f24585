//! System variables: what the node keeps for programs to read.

pub mod clock;
pub mod epoch_schedule;
pub mod recent_blockhashes;
pub mod rent;
pub mod slot_hashes;
pub mod stake_history;

use crate::codec::{items_layout, Codec};
use crate::digest::{hashed, Digest};
use vstd::prelude::*;
use vstd::slice::slice_to_vec;
use vstd::utf8::encode_utf8;

verus! {

/// A system variable. Its identity is the hash of its seed.
pub trait Sysvar: Codec {
    spec fn seed() -> Seq<char>;

    spec fn room() -> usize;

    /// What the identity is the hash of.
    fn id_seed() -> (r: &'static str)
        ensures
            r@ == Self::seed(),
    ;

    /// The identity of the variable, which it is stored under.
    fn id<H: Fn(&Vec<u8>) -> Digest>(hash: H) -> (r: Digest)
        requires
            forall|bytes: Vec<u8>| #[trigger] hash.requires((&bytes,)),
        ensures
            hashed(hash, encode_utf8(Self::seed()), r),
    {
        let seed: Vec<u8> = slice_to_vec(Self::id_seed().as_bytes());
        let r = hash(&seed);
        assert(hash.ensures((&seed,), r) && seed@ == encode_utf8(Self::seed()));
        r
    }

    /// The room that the variable is given, in bytes.
    fn size_of() -> (r: usize)
        ensures
            r == Self::room(),
    ;
}

/// Items of one length are laid out in so many bytes.
pub proof fn lemma_equal_items<T: Codec>(items: Seq<T::M>, width: nat)
    requires
        forall|m: T::M| (#[trigger] T::layout(m)).len() == width,
    ensures
        items_layout::<T>(items).len() == items.len() * width,
    decreases items.len(),
{
    if items.len() > 0 {
        lemma_equal_items::<T>(items.drop_first(), width);
        assert(T::layout(items[0]).len() == width);
        assert(items.len() * width == width + (items.len() - 1) * width) by (nonlinear_arith);
    } else {
        assert(items.len() * width == 0) by (nonlinear_arith)
            requires
                items.len() == 0,
        ;
    }
}

} // verus!
