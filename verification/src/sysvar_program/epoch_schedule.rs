//! The schedule of epochs.

use crate::codec::{Codec, Fault};
use crate::sysvar_program::Sysvar;
use vstd::prelude::*;

verus! {

/// The schedule of the node.
#[derive(Clone, Copy, Debug, Default, PartialEq, Eq)]
pub struct EpochScheduleSysvar<E>(pub E);

/// Laid out as what it holds.
impl<E: Codec> Codec for EpochScheduleSysvar<E> {
    type M = <E as Codec>::M;

    open spec fn model(&self) -> Self::M {
        self.0.model()
    }

    open spec fn well_formed(&self) -> bool {
        self.0.well_formed()
    }

    open spec fn layout(m: Self::M) -> Seq<u8> {
        <E as Codec>::layout(m)
    }

    open spec fn fits(m: Self::M) -> bool {
        <E as Codec>::fits(m)
    }

    open spec fn fault(bytes: Seq<u8>) -> Fault {
        <E as Codec>::fault(bytes)
    }

    proof fn prefix_free(a: Self::M, b: Self::M, s: Seq<u8>, t: Seq<u8>) {
        <E as Codec>::prefix_free(a, b, s, t);
    }

    fn encode(&self, out: &mut Vec<u8>) -> (ok: bool) {
        self.0.encode(out)
    }

    fn decode<'a>(input: &'a [u8]) -> (r: Result<(Self, &'a [u8]), Fault>) {
        match <E as Codec>::decode(input) {
            Ok((inner, rest)) => Ok((EpochScheduleSysvar(inner), rest)),
            Err(f) => Err(f),
        }
    }
}

impl<E: Codec> Sysvar for EpochScheduleSysvar<E> {
    open spec fn seed() -> Seq<char> {
        "sysvar_epoch_schedule"@
    }

    open spec fn room() -> usize {
        41
    }

    fn id_seed() -> (r: &'static str) {
        "sysvar_epoch_schedule"
    }

    fn size_of() -> (r: usize) {
        41
    }
}

} // verus!
