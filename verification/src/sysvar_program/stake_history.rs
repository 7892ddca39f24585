//! How much was staked in each epoch.

use crate::bytes::lemma_le_bytes_len;
use crate::codec::{Codec, Fault};
use crate::sysvar_program::{lemma_equal_items, Sysvar};
use vstd::prelude::*;

verus! {

#[derive(Clone, Copy, Debug, PartialEq, Eq)]
pub struct StakeHistoryEntry {
    pub effective: u64,
    pub activating: u64,
    pub deactivating: u64,
}

/// The fields of what was staked in an epoch in the order of its layout.
pub type StakeHistoryEntryFields = (u64, (u64, u64));

impl Codec for StakeHistoryEntry {
    type M = <StakeHistoryEntryFields as Codec>::M;

    open spec fn model(&self) -> Self::M {
        (self.effective.model(), (self.activating.model(), self.deactivating.model()))
    }

    open spec fn well_formed(&self) -> bool {
        true
    }

    open spec fn layout(m: Self::M) -> Seq<u8> {
        <StakeHistoryEntryFields as Codec>::layout(m)
    }

    open spec fn fits(m: Self::M) -> bool {
        <StakeHistoryEntryFields as Codec>::fits(m)
    }

    open spec fn fault(bytes: Seq<u8>) -> Fault {
        <StakeHistoryEntryFields as Codec>::fault(bytes)
    }

    proof fn prefix_free(a: Self::M, b: Self::M, s: Seq<u8>, t: Seq<u8>) {
        <StakeHistoryEntryFields as Codec>::prefix_free(a, b, s, t);
    }

    fn encode(&self, out: &mut Vec<u8>) -> (ok: bool) {
        let _ = self.effective.encode(out);
        let _ = self.activating.encode(out);
        let _ = self.deactivating.encode(out);
        assert(out@ =~= old(out)@ + Self::layout(self.model()));
        true
    }

    fn decode<'a>(input: &'a [u8]) -> (r: Result<(Self, &'a [u8]), Fault>) {
        match <StakeHistoryEntryFields as Codec>::decode(input) {
            Ok(((effective, (activating, deactivating)), rest)) => Ok((
                StakeHistoryEntry { effective, activating, deactivating },
                rest,
            )),
            Err(f) => Err(f),
        }
    }
}

/// Epochs with what was staked in them.
#[derive(Clone, Debug, Default, PartialEq, Eq)]
pub struct StakeHistory(pub Vec<(u64, StakeHistoryEntry)>);

/// Laid out as what it holds.
impl Codec for StakeHistory {
    type M = <Vec<(u64, StakeHistoryEntry)> as Codec>::M;

    open spec fn model(&self) -> Self::M {
        self.0.model()
    }

    open spec fn well_formed(&self) -> bool {
        self.0.well_formed()
    }

    open spec fn layout(m: Self::M) -> Seq<u8> {
        <Vec<(u64, StakeHistoryEntry)> as Codec>::layout(m)
    }

    open spec fn fits(m: Self::M) -> bool {
        <Vec<(u64, StakeHistoryEntry)> as Codec>::fits(m)
    }

    open spec fn fault(bytes: Seq<u8>) -> Fault {
        <Vec<(u64, StakeHistoryEntry)> as Codec>::fault(bytes)
    }

    proof fn prefix_free(a: Self::M, b: Self::M, s: Seq<u8>, t: Seq<u8>) {
        <Vec<(u64, StakeHistoryEntry)> as Codec>::prefix_free(a, b, s, t);
    }

    fn encode(&self, out: &mut Vec<u8>) -> (ok: bool) {
        self.0.encode(out)
    }

    fn decode<'a>(input: &'a [u8]) -> (r: Result<(Self, &'a [u8]), Fault>) {
        match <Vec<(u64, StakeHistoryEntry)> as Codec>::decode(input) {
            Ok((inner, rest)) => Ok((StakeHistory(inner), rest)),
            Err(f) => Err(f),
        }
    }
}

impl Sysvar for StakeHistory {
    open spec fn seed() -> Seq<char> {
        "sysvar_stake_history"@
    }

    open spec fn room() -> usize {
        16388
    }

    fn id_seed() -> (r: &'static str) {
        "sysvar_stake_history"
    }

    fn size_of() -> (r: usize) {
        16388
    }
}

impl StakeHistory {
    pub fn new(entries: Vec<(u64, StakeHistoryEntry)>) -> (r: Self)
        ensures
            r.0 == entries,
    {
        StakeHistory(entries)
    }

    /// What stands first for an epoch.
    pub fn get(&self, epoch: u64) -> (r: Option<&StakeHistoryEntry>)
        ensures
            match r {
                Some(e) => exists|i: int|
                    {
                        &&& 0 <= i < self.0@.len()
                        &&& #[trigger] self.0@[i] == (epoch, *e)
                        &&& forall|k: int| 0 <= k < i ==> (#[trigger] self.0@[k]).0 != epoch
                    },
                None => forall|i: int| 0 <= i < self.0@.len() ==> (#[trigger] self.0@[i]).0 != epoch,
            },
    {
        let n: usize = self.0.len();
        let mut i: usize = 0;
        while i < n
            invariant
                i <= n == self.0@.len(),
                forall|k: int| 0 <= k < i ==> (#[trigger] self.0@[k]).0 != epoch,
            decreases n - i,
        {
            if self.0[i].0 == epoch {
                return Some(&self.0[i].1);
            }
            i = i + 1;
        }
        None
    }

    pub fn len(&self) -> (r: usize)
        ensures
            r == self.0@.len(),
    {
        self.0.len()
    }

    pub fn is_empty(&self) -> (r: bool)
        ensures
            r == (self.0@.len() == 0),
    {
        self.0.len() == 0
    }
}

/// As many epochs as are kept take up no more room than they are given.
pub proof fn stake_history_fits_its_room(m: Seq<(u64, <StakeHistoryEntry as Codec>::M)>)
    requires
        m.len() <= 512,
    ensures
        <StakeHistory as Codec>::layout(m).len() <= StakeHistory::room(),
{
    lemma_le_bytes_len(m.len(), 4);
    assert forall|x: (u64, <StakeHistoryEntry as Codec>::M)|
        (#[trigger] <(u64, StakeHistoryEntry) as Codec>::layout(x)).len() == 32 by {
        lemma_le_bytes_len(x.0 as nat, 8);
        lemma_le_bytes_len((x.1).0 as nat, 8);
        lemma_le_bytes_len(((x.1).1).0 as nat, 8);
        lemma_le_bytes_len(((x.1).1).1 as nat, 8);
    }
    lemma_equal_items::<(u64, StakeHistoryEntry)>(m, 32);
}

/// A stake history entry is written field by field, in this order.
pub proof fn stake_history_entry_is_written_in_order(x: StakeHistoryEntry)
    ensures
        <StakeHistoryEntry as Codec>::layout(x.model()) == <u64 as Codec>::layout(x.effective.model())
            + <u64 as Codec>::layout(x.activating.model())
            + <u64 as Codec>::layout(x.deactivating.model()),
{
}

} // verus!
