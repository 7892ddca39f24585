//! The clock.

use crate::bytes::lemma_le_bytes_len;
use crate::codec::{i64_bits, Codec, Fault};
use crate::sysvar_program::Sysvar;
use vstd::prelude::*;

verus! {

#[derive(Clone, Copy, Debug, PartialEq, Eq)]
pub struct Clock {
    pub slot: u64,
    pub epoch_start_timestamp: i64,
    pub epoch: u64,
    pub leader_schedule_epoch: u64,
    pub unix_timestamp: i64,
}

impl Default for Clock {
    fn default() -> (r: Self)
        ensures
            r == (Clock {
                slot: 0,
                epoch_start_timestamp: 0,
                epoch: 0,
                leader_schedule_epoch: 1,
                unix_timestamp: 0,
            }),
    {
        Clock {
            slot: 0,
            epoch_start_timestamp: 0,
            epoch: 0,
            leader_schedule_epoch: 1,
            unix_timestamp: 0,
        }
    }
}

/// The fields of the clock in the order of its layout.
pub type ClockFields = (u64, (i64, (u64, (u64, i64))));

impl Codec for Clock {
    type M = <ClockFields as Codec>::M;

    open spec fn model(&self) -> Self::M {
        (
            self.slot.model(),
            (
                self.epoch_start_timestamp.model(),
                (
                    self.epoch.model(),
                    (self.leader_schedule_epoch.model(), self.unix_timestamp.model()),
                ),
            ),
        )
    }

    open spec fn well_formed(&self) -> bool {
        true
    }

    open spec fn layout(m: Self::M) -> Seq<u8> {
        <ClockFields as Codec>::layout(m)
    }

    open spec fn fits(m: Self::M) -> bool {
        <ClockFields as Codec>::fits(m)
    }

    open spec fn fault(bytes: Seq<u8>) -> Fault {
        <ClockFields as Codec>::fault(bytes)
    }

    proof fn prefix_free(a: Self::M, b: Self::M, s: Seq<u8>, t: Seq<u8>) {
        <ClockFields as Codec>::prefix_free(a, b, s, t);
    }

    fn encode(&self, out: &mut Vec<u8>) -> (ok: bool) {
        let _ = self.slot.encode(out);
        let _ = self.epoch_start_timestamp.encode(out);
        let _ = self.epoch.encode(out);
        let _ = self.leader_schedule_epoch.encode(out);
        let _ = self.unix_timestamp.encode(out);
        assert(out@ =~= old(out)@ + Self::layout(self.model()));
        true
    }

    fn decode<'a>(input: &'a [u8]) -> (r: Result<(Self, &'a [u8]), Fault>) {
        match <ClockFields as Codec>::decode(input) {
            Ok((
                (slot, (epoch_start_timestamp, (epoch, (leader_schedule_epoch, unix_timestamp)))),
                rest,
            )) => Ok((
                Clock { slot, epoch_start_timestamp, epoch, leader_schedule_epoch, unix_timestamp },
                rest,
            )),
            Err(f) => Err(f),
        }
    }
}

impl Sysvar for Clock {
    open spec fn seed() -> Seq<char> {
        "sysvar_clock"@
    }

    open spec fn room() -> usize {
        40
    }

    fn id_seed() -> (r: &'static str) {
        "sysvar_clock"
    }

    fn size_of() -> (r: usize) {
        40
    }
}

/// The clock takes up the room that it is given.
pub proof fn clock_fills_its_room(m: <Clock as Codec>::M)
    ensures
        <Clock as Codec>::layout(m).len() == Clock::room(),
{
    lemma_le_bytes_len(m.0 as nat, 8);
    lemma_le_bytes_len(i64_bits((m.1).0), 8);
    lemma_le_bytes_len(((m.1).1).0 as nat, 8);
    lemma_le_bytes_len((((m.1).1).1).0 as nat, 8);
    lemma_le_bytes_len(i64_bits((((m.1).1).1).1), 8);
}

/// A clock is written field by field, in this order.
pub proof fn clock_is_written_in_order(x: Clock)
    ensures
        <Clock as Codec>::layout(x.model()) == <u64 as Codec>::layout(x.slot.model())
            + <i64 as Codec>::layout(x.epoch_start_timestamp.model())
            + <u64 as Codec>::layout(x.epoch.model())
            + <u64 as Codec>::layout(x.leader_schedule_epoch.model())
            + <i64 as Codec>::layout(x.unix_timestamp.model()),
{
}

} // verus!
