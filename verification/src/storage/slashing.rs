//! Proofs that a validator voted twice at a slot.

use crate::bytes::{be_value, lemma_be_bytes_of_value, lemma_byte_ranges, lex_less};
use crate::codec::{Codec, Fault};
use crate::digest::Digest;
use crate::storage::cf::CF_SLASHES;
use crate::storage::database::{has_prefix, Database};
use crate::storage::error::StorageError;
use crate::storage::keys::{
    account_bytes, account_key, account_keys_are_distinct, account_keys_are_ordered, key_lengths,
};
use crate::storage::store::{
    agrees, changed, is_record_list, outcome, put_record, put_then_get, record,
    record_list_is_complete, records_under, ErrorModel, Storage,
};
use crate::storage::write_batch::{apply, Op, Rows};
use vstd::prelude::*;

verus! {

/// A proof that a validator voted for two blocks at one slot. Signatures are left out to
/// keep it small.
#[derive(Clone, Copy, Debug, PartialEq, Eq)]
pub struct SlashProof {
    /// The validator that voted twice.
    pub validator: Digest,
    /// The slot that it voted twice at.
    pub slot: u64,
    /// The block that the first vote seen was for.
    pub vote1_hash: Digest,
    /// The block that the other vote was for.
    pub vote2_hash: Digest,
    /// The node that noticed.
    pub reporter: Digest,
    /// When it noticed, in seconds since 1970.
    pub timestamp: i64,
}

/// The fields of a proof of double voting in the order of its layout.
pub type SlashProofFields = (Digest, (u64, (Digest, (Digest, (Digest, i64)))));

impl Codec for SlashProof {
    type M = <SlashProofFields as Codec>::M;

    open spec fn model(&self) -> Self::M {
        (
            self.validator.model(),
            (
                self.slot.model(),
                (
                    self.vote1_hash.model(),
                    (self.vote2_hash.model(), (self.reporter.model(), self.timestamp.model())),
                ),
            ),
        )
    }

    open spec fn well_formed(&self) -> bool {
        true
    }

    open spec fn layout(m: Self::M) -> Seq<u8> {
        <SlashProofFields as Codec>::layout(m)
    }

    open spec fn fits(m: Self::M) -> bool {
        <SlashProofFields as Codec>::fits(m)
    }

    open spec fn fault(bytes: Seq<u8>) -> Fault {
        <SlashProofFields as Codec>::fault(bytes)
    }

    proof fn prefix_free(a: Self::M, b: Self::M, s: Seq<u8>, t: Seq<u8>) {
        <SlashProofFields as Codec>::prefix_free(a, b, s, t);
    }

    fn encode(&self, out: &mut Vec<u8>) -> (ok: bool) {
        let _ = self.validator.encode(out);
        let _ = self.slot.encode(out);
        let _ = self.vote1_hash.encode(out);
        let _ = self.vote2_hash.encode(out);
        let _ = self.reporter.encode(out);
        let _ = self.timestamp.encode(out);
        assert(out@ =~= old(out)@ + Self::layout(self.model()));
        true
    }

    fn decode<'a>(input: &'a [u8]) -> (r: Result<(Self, &'a [u8]), Fault>) {
        match <SlashProofFields as Codec>::decode(input) {
            Ok((
                (validator, (slot, (vote1_hash, (vote2_hash, (reporter, timestamp))))),
                rest,
            )) => Ok((
                SlashProof { validator, slot, vote1_hash, vote2_hash, reporter, timestamp },
                rest,
            )),
            Err(f) => Err(f),
        }
    }
}

/// The key of a proof: the validator, then the slot.
pub fn slash_proof_key(validator: &Digest, slot: u64) -> (r: [u8; 72])
    ensures
        r@ == account_bytes(*validator, slot),
{
    account_key(validator, slot)
}

/// The change that stores a proof.
pub open spec fn put_slash_ops(m: <SlashProof as Codec>::M) -> Result<(Seq<Op>, ()), ErrorModel> {
    put_record::<SlashProof>(CF_SLASHES, account_bytes(m.0, (m.1).0), m)
}

/// The proof against a validator at a slot.
pub open spec fn slash_at(rows: Rows, validator: Digest, slot: u64) -> Result<
    Option<<SlashProof as Codec>::M>,
    ErrorModel,
> {
    record::<SlashProof>(rows, CF_SLASHES, account_bytes(validator, slot))
}

/// The proofs against a validator, by slot.
pub open spec fn slashes_of(rows: Rows, validator: Digest) -> Result<
    Seq<<SlashProof as Codec>::M>,
    ErrorModel,
> {
    records_under::<SlashProof>(rows, CF_SLASHES, validator@)
}

impl<D: Database> Storage<D> {
    /// Stores a proof.
    pub fn put_slash_proof(&mut self, proof_of: &SlashProof) -> (r: Result<(), StorageError>)
        ensures
            old(self).reliable() ==> final(self).reliable(),
            changed(
                old(self).reliable(),
                old(self).rows(),
                final(self).rows(),
                outcome(r),
                put_slash_ops(proof_of.model()),
            ),
    {
        let key = slash_proof_key(&proof_of.validator, proof_of.slot);
        self.put_record(CF_SLASHES, key.as_slice(), proof_of)
    }

    /// The proofs against a validator, by slot.
    pub fn get_slash_proofs(&self, validator: &Digest) -> (r: Result<Vec<SlashProof>, StorageError>)
        ensures
            agrees(
                self.reliable(),
                outcome(r),
                slashes_of(self.rows(), *validator),
            ),
    {
        self.get_records_under::<SlashProof>(CF_SLASHES, validator.as_bytes().as_slice())
    }

    /// The proof against a validator at a slot.
    pub fn get_slash_proof(&self, validator: &Digest, slot: u64) -> (r: Result<
        Option<SlashProof>,
        StorageError,
    >)
        ensures
            agrees(
                self.reliable(),
                outcome(r),
                slash_at(self.rows(), *validator, slot),
            ),
    {
        let key = slash_proof_key(validator, slot);
        self.get_record::<SlashProof>(CF_SLASHES, key.as_slice())
    }
}

/// A proof that was stored is read for its validator and slot, and all others stay.
pub proof fn stored_slash_proof_reads_back(
    rows: Rows,
    m: <SlashProof as Codec>::M,
    validator: Digest,
    slot: u64,
)
    ensures
        ({
            let ops = put_slash_ops(m);
            let after = apply(rows, (ops->Ok_0).0);
            &&& ops is Ok
            &&& slash_at(after, m.0, (m.1).0) == Ok::<
                Option<<SlashProof as Codec>::M>,
                ErrorModel,
            >(Some(m))
            &&& validator != m.0 || slot != (m.1).0 ==> slash_at(after, validator, slot)
                == slash_at(rows, validator, slot)
        }),
{
    put_then_get::<SlashProof>(rows, CF_SLASHES, account_bytes(m.0, (m.1).0), m);
    account_keys_are_distinct(validator, slot, m.0, (m.1).0);
    reveal_with_fuel(apply, 2);
}

/// `list` holds the proofs against a validator at the slots `slots`: all that there are, by slot.
pub open spec fn is_slash_list(
    rows: Rows,
    validator: Digest,
    slots: Seq<u64>,
    list: Seq<<SlashProof as Codec>::M>,
) -> bool {
    &&& slots.len() == list.len()
    &&& forall|i: int, j: int|
        0 <= i < j < slots.len() ==> (#[trigger] slots[i]) < (#[trigger] slots[j])
    &&& forall|i: int|
        0 <= i < slots.len() ==> slash_at(rows, validator, #[trigger] slots[i]) == Ok::<
            Option<<SlashProof as Codec>::M>,
            ErrorModel,
        >(Some(list[i]))
    &&& forall|slot: u64|
        rows.contains_key((CF_SLASHES, #[trigger] account_bytes(validator, slot)))
            ==> slots.contains(slot)
}

/// The list of the proofs against a validator is complete, in the order of their slots, and has
/// none against another.
pub proof fn slash_proofs_are_listed_by_slot(rows: Rows, validator: Digest)
    requires
        rows.dom().finite(),
        rows.dom().len() < usize::MAX,
        forall|k: Seq<u8>| #[trigger] rows.contains_key((CF_SLASHES, k)) ==> k.len() == 72,
    ensures
        slashes_of(rows, validator) matches Ok(list) ==> exists|slots: Seq<u64>| #[trigger]
            is_slash_list(rows, validator, slots, list),
{
    record_list_is_complete::<SlashProof>(rows, CF_SLASHES, validator@);
    if slashes_of(rows, validator) is Ok {
        let list = slashes_of(rows, validator)->Ok_0;
        let keys = choose|keys: Seq<Seq<u8>>| #[trigger]
            is_record_list::<SlashProof>(rows, CF_SLASHES, validator@, keys, list);
        let slots = Seq::new(keys.len(), |i: int| be_value(keys[i].subrange(64, 72)) as u64);
        assert forall|i: int| 0 <= i < keys.len() implies account_bytes(
            validator,
            #[trigger] slots[i],
        ) == keys[i] by {
            let k = keys[i];
            assert(rows.contains_key((CF_SLASHES, k)) && has_prefix(k, validator@));
            lemma_be_bytes_of_value(k.subrange(64, 72));
            lemma_byte_ranges();
            assert(k =~= k.subrange(0, 64) + k.subrange(64, 72));
        }
        assert forall|i: int, j: int| 0 <= i < j < slots.len() implies (#[trigger] slots[i])
            < (#[trigger] slots[j]) by {
            assert(lex_less(keys[i], keys[j]));
            account_keys_are_ordered(validator, slots[i], slots[j]);
        }
        assert forall|i: int| 0 <= i < slots.len() implies slash_at(
            rows,
            validator,
            #[trigger] slots[i],
        ) == Ok::<Option<<SlashProof as Codec>::M>, ErrorModel>(Some(list[i])) by {
            assert(rows.contains_key((CF_SLASHES, keys[i])));
        }
        assert forall|slot: u64|
            rows.contains_key(
                (CF_SLASHES, #[trigger] account_bytes(validator, slot)),
            ) implies slots.contains(slot) by {
            let k = account_bytes(validator, slot);
            assert(k.subrange(0, 64) =~= validator@);
            key_lengths(validator, validator, slot, 0);
            let i = choose|i: int| 0 <= i < keys.len() && keys[i] == k;
            account_keys_are_distinct(validator, slot, validator, slots[i]);
            assert(slots[i] == slot);
        }
        assert(is_slash_list(rows, validator, slots, list));
    }
}

/// A slash proof is written field by field, in this order.
pub proof fn slash_proof_is_written_in_order(x: SlashProof)
    ensures
        <SlashProof as Codec>::layout(x.model()) == <Digest as Codec>::layout(x.validator.model())
            + <u64 as Codec>::layout(x.slot.model())
            + <Digest as Codec>::layout(x.vote1_hash.model())
            + <Digest as Codec>::layout(x.vote2_hash.model())
            + <Digest as Codec>::layout(x.reporter.model())
            + <i64 as Codec>::layout(x.timestamp.model()),
{
}

} // verus!
