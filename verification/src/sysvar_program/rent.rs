//! The rent.

use crate::codec::{Codec, Fault};
use crate::sysvar_program::Sysvar;
use vstd::prelude::*;

verus! {

/// The rent of the node.
#[derive(Clone, Copy, Debug, Default, PartialEq, Eq)]
pub struct RentSysvar<R>(pub R);

/// Laid out as what it holds.
impl<R: Codec> Codec for RentSysvar<R> {
    type M = <R as Codec>::M;

    open spec fn model(&self) -> Self::M {
        self.0.model()
    }

    open spec fn well_formed(&self) -> bool {
        self.0.well_formed()
    }

    open spec fn layout(m: Self::M) -> Seq<u8> {
        <R as Codec>::layout(m)
    }

    open spec fn fits(m: Self::M) -> bool {
        <R as Codec>::fits(m)
    }

    open spec fn fault(bytes: Seq<u8>) -> Fault {
        <R as Codec>::fault(bytes)
    }

    proof fn prefix_free(a: Self::M, b: Self::M, s: Seq<u8>, t: Seq<u8>) {
        <R as Codec>::prefix_free(a, b, s, t);
    }

    fn encode(&self, out: &mut Vec<u8>) -> (ok: bool) {
        self.0.encode(out)
    }

    fn decode<'a>(input: &'a [u8]) -> (r: Result<(Self, &'a [u8]), Fault>) {
        match <R as Codec>::decode(input) {
            Ok((inner, rest)) => Ok((RentSysvar(inner), rest)),
            Err(f) => Err(f),
        }
    }
}

impl<R: Codec> Sysvar for RentSysvar<R> {
    open spec fn seed() -> Seq<char> {
        "sysvar_rent"@
    }

    open spec fn room() -> usize {
        17
    }

    fn id_seed() -> (r: &'static str) {
        "sysvar_rent"
    }

    fn size_of() -> (r: usize) {
        17
    }
}

} // verus!
