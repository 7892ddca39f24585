//! What a transaction must satisfy before it is taken in.
//!
//! Cheap checks come first. Signatures and proofs are checked by functions that the
//! caller hands in, and only once every other check has passed.

use crate::text::{decimal, push_str, push_u64, push_usize, string};
use crate::tpu::error::TpuError;
use crate::tpu::protocol::{MAX_BATCH_ENTRIES, MAX_TRANSACTION_SIZE};
use crate::ledger::{programs_listed, SignedTransactionBatch, Transaction};
use vstd::prelude::*;

verus! {

/// Absolute wire-size ceiling for any batch message (decompressed bytes).
pub const MAX_BATCH_WIRE_SIZE: usize = 4194304;

/// Why a transaction is refused without looking at its signatures.
pub enum Flaw {
    /// Not well formed, as the text says.
    Malformed(Seq<char>),
    /// Longer than the limit.
    TooLarge,
}

/// The first flaw of a transaction of `size` bytes, if it has one.
pub open spec fn flaw_of(tx: Transaction, size: nat) -> Option<Flaw> {
    let signatures = tx.signatures@.len();
    let required = tx.message.num_required_signatures;
    if tx.message.account_keys@.len() == 0 {
        Some(Flaw::Malformed("transaction has no account keys"@))
    } else if signatures == 0 {
        Some(Flaw::Malformed("transaction has no signatures"@))
    } else if signatures != required {
        Some(
            Flaw::Malformed(
                "signature count "@ + decimal(signatures) + " != num_required_signatures "@
                    + decimal(required as nat),
            ),
        )
    } else if tx.message.account_keys@.len() < required {
        Some(Flaw::Malformed("fewer account keys than required signatures"@))
    } else if !programs_listed(tx.message) {
        Some(Flaw::Malformed("instruction references invalid program_id_index"@))
    } else if tx.signer_pubkeys@.len() != signatures {
        Some(
            Flaw::Malformed(
                "signer_pubkeys count "@ + decimal(tx.signer_pubkeys@.len())
                    + " != signature count "@ + decimal(signatures),
            ),
        )
    } else if size > MAX_TRANSACTION_SIZE {
        Some(Flaw::TooLarge)
    } else {
        None
    }
}

/// The error says that flaw.
pub open spec fn says_flaw(e: TpuError, flaw: Flaw, size: nat) -> bool {
    match flaw {
        Flaw::Malformed(text) => e matches TpuError::InvalidTransaction(s) && s@ == text,
        Flaw::TooLarge => e matches TpuError::TransactionTooLarge { size: got, max_size } && got
            == size && max_size == MAX_TRANSACTION_SIZE,
    }
}

fn invalid(text: &str) -> (r: TpuError)
    ensures
        r matches TpuError::InvalidTransaction(s) && s@ == text@,
{
    TpuError::InvalidTransaction(string(text))
}

/// Structural validation of a single transaction.
///
/// `tx_serialized_size` must be the serialized byte length of `tx`, not the compressed
/// wire size: otherwise a compressed stream could inflate beyond `MAX_TRANSACTION_SIZE`.
pub fn validate_structure(tx: &Transaction, tx_serialized_size: usize) -> (r: Result<(), TpuError>)
    ensures
        match flaw_of(*tx, tx_serialized_size as nat) {
            None => r is Ok,
            Some(flaw) => r matches Err(e) && says_flaw(e, flaw, tx_serialized_size as nat),
        },
{
    let keys: usize = tx.message.account_keys.len();
    let signatures: usize = tx.signatures.len();
    let required: u8 = tx.message.num_required_signatures;
    if keys == 0 {
        return Err(invalid("transaction has no account keys"));
    }
    if signatures == 0 {
        return Err(invalid("transaction has no signatures"));
    }
    if signatures != required as usize {
        let mut text: String = string("signature count ");
        push_usize(&mut text, signatures);
        push_str(&mut text, " != num_required_signatures ");
        push_u64(&mut text, required as u64);
        return Err(TpuError::InvalidTransaction(text));
    }
    if keys < required as usize {
        return Err(invalid("fewer account keys than required signatures"));
    }
    if !tx.message.programs_are_listed() {
        return Err(invalid("instruction references invalid program_id_index"));
    }
    if tx.signer_pubkeys.len() != signatures {
        let mut text: String = string("signer_pubkeys count ");
        push_usize(&mut text, tx.signer_pubkeys.len());
        push_str(&mut text, " != signature count ");
        push_usize(&mut text, signatures);
        return Err(TpuError::InvalidTransaction(text));
    }
    if tx_serialized_size > MAX_TRANSACTION_SIZE as usize {
        return Err(
            TpuError::TransactionTooLarge {
                size: tx_serialized_size,
                max_size: MAX_TRANSACTION_SIZE as usize,
            },
        );
    }
    Ok(())
}

/// The outcome of validation, given what the signature check says: it counts only if
/// there is no flaw.
pub open spec fn judged(
    tx: Transaction,
    size: nat,
    signatures: Result<(), String>,
    r: Result<(), TpuError>,
) -> bool {
    match flaw_of(tx, size) {
        Some(flaw) => r matches Err(e) && says_flaw(e, flaw, size),
        None => match signatures {
            Ok(()) => r is Ok,
            Err(why) => r matches Err(TpuError::InvalidTransaction(s)) && s@
                == "signature verification failed: "@ + why@,
        },
    }
}

/// The outcome for a transaction without flaws, given what the signature check says.
pub fn finish_validate(signatures: Result<(), String>) -> (r: Result<(), TpuError>)
    ensures
        match signatures {
            Ok(()) => r is Ok,
            Err(why) => r matches Err(TpuError::InvalidTransaction(s)) && s@
                == "signature verification failed: "@ + why@,
        },
{
    match signatures {
        Ok(()) => Ok(()),
        Err(why) => {
            let mut text: String = string("signature verification failed: ");
            push_str(&mut text, why.as_str());
            Err(TpuError::InvalidTransaction(text))
        },
    }
}

/// Quick structural + signature validation of a single transaction. The signature check
/// runs only if the structure has no flaw.
pub fn validate<F: FnOnce(&Transaction) -> Result<(), String>>(
    tx: &Transaction,
    tx_serialized_size: usize,
    verify_signatures: F,
) -> (r: Result<(), TpuError>)
    requires
        verify_signatures.requires((tx,)),
    ensures
        exists|verdict: Result<(), String>| #[trigger]
            judged(*tx, tx_serialized_size as nat, verdict, r) && (flaw_of(
                *tx,
                tx_serialized_size as nat,
            ) is None ==> verify_signatures.ensures((tx,), verdict)),
{
    match validate_structure(tx, tx_serialized_size) {
        Err(e) => {
            let r: Result<(), TpuError> = Err(e);
            assert(judged(*tx, tx_serialized_size as nat, Ok(()), r));
            r
        },
        Ok(()) => {
            let verdict = verify_signatures(tx);
            let ghost said = verdict;
            let r = finish_validate(verdict);
            assert(judged(*tx, tx_serialized_size as nat, said, r));
            r
        },
    }
}

// ---------------------------------------------------------------------------
// Batches
// ---------------------------------------------------------------------------

/// Why a batch is refused without looking at its signature.
pub enum BatchFlaw {
    /// As the text says.
    Invalid(Seq<char>),
    /// Longer than the limit.
    TooLarge,
}

/// What is wrong with the `i`-th entry, if anything.
pub open spec fn entry_flaw(batch: SignedTransactionBatch, i: int) -> Option<Seq<char>> {
    let m = batch.entries@[i].message;
    if m.account_keys@.len() == 0 {
        Some("batch entry "@ + decimal(i as nat) + ": no account keys"@)
    } else if !programs_listed(m) {
        Some("batch entry "@ + decimal(i as nat) + ": invalid program_id_index"@)
    } else {
        None
    }
}

/// What is wrong with the first flawed entry from the `i`-th on.
pub open spec fn first_entry_flaw(batch: SignedTransactionBatch, i: nat) -> Option<Seq<char>>
    decreases batch.entries@.len() - i,
{
    if i >= batch.entries@.len() {
        None
    } else {
        match entry_flaw(batch, i as int) {
            Some(text) => Some(text),
            None => first_entry_flaw(batch, i + 1),
        }
    }
}

/// The first flaw of a batch of `size` bytes, if it has one.
pub open spec fn batch_flaw_of(batch: SignedTransactionBatch, size: nat) -> Option<BatchFlaw> {
    let n = batch.entries@.len();
    if n == 0 {
        Some(BatchFlaw::Invalid("empty batch"@))
    } else if size > MAX_BATCH_WIRE_SIZE {
        Some(BatchFlaw::TooLarge)
    } else if n > MAX_BATCH_ENTRIES {
        Some(
            BatchFlaw::Invalid(
                "batch has "@ + decimal(n) + " entries, max "@ + decimal(MAX_BATCH_ENTRIES as nat),
            ),
        )
    } else {
        match first_entry_flaw(batch, 0) {
            Some(text) => Some(BatchFlaw::Invalid(text)),
            None => None,
        }
    }
}

pub open spec fn says_batch_flaw(e: TpuError, flaw: BatchFlaw, size: nat) -> bool {
    match flaw {
        BatchFlaw::Invalid(text) => e matches TpuError::InvalidBatch(s) && s@ == text,
        BatchFlaw::TooLarge => e matches TpuError::TransactionTooLarge { size: got, max_size }
            && got == size && max_size == MAX_BATCH_WIRE_SIZE,
    }
}

fn entry_error(i: usize, what: &str) -> (r: TpuError)
    ensures
        r matches TpuError::InvalidBatch(s) && s@ == "batch entry "@ + decimal(i as nat) + what@,
{
    let mut text: String = string("batch entry ");
    push_usize(&mut text, i);
    push_str(&mut text, what);
    TpuError::InvalidBatch(text)
}

/// Structural validation of a signed transaction batch: the absolute size cap, the entry
/// count cap, and the structure of each entry.
///
/// `decompressed_wire_size` is the byte length of the encoded batch after decompression.
pub fn validate_batch_structure(batch: &SignedTransactionBatch, decompressed_wire_size: usize) -> (r:
    Result<(), TpuError>)
    ensures
        match batch_flaw_of(*batch, decompressed_wire_size as nat) {
            None => r is Ok,
            Some(flaw) => r matches Err(e) && says_batch_flaw(
                e,
                flaw,
                decompressed_wire_size as nat,
            ),
        },
{
    let n: usize = batch.entries.len();
    if n == 0 {
        return Err(TpuError::InvalidBatch(string("empty batch")));
    }
    // A fixed ceiling: the number of entries cannot inflate it.
    if decompressed_wire_size > MAX_BATCH_WIRE_SIZE {
        return Err(
            TpuError::TransactionTooLarge {
                size: decompressed_wire_size,
                max_size: MAX_BATCH_WIRE_SIZE,
            },
        );
    }
    if n > MAX_BATCH_ENTRIES as usize {
        let mut text: String = string("batch has ");
        push_usize(&mut text, n);
        push_str(&mut text, " entries, max ");
        push_u64(&mut text, MAX_BATCH_ENTRIES);
        return Err(TpuError::InvalidBatch(text));
    }
    let mut i: usize = 0;
    while i < n
        invariant
            i <= n == batch.entries@.len(),
            0 < n <= MAX_BATCH_ENTRIES,
            decompressed_wire_size <= MAX_BATCH_WIRE_SIZE,
            first_entry_flaw(*batch, 0) == first_entry_flaw(*batch, i as nat),
        decreases n - i,
    {
        if batch.entries[i].message.account_keys.len() == 0 {
            return Err(entry_error(i, ": no account keys"));
        }
        if !batch.entries[i].message.programs_are_listed() {
            return Err(entry_error(i, ": invalid program_id_index"));
        }
        i = i + 1;
    }
    Ok(())
}

/// The outcome of validating a batch, given what the checks of its signature and of its
/// Merkle proofs say: they count only if there is no flaw, the second only after the first.
pub open spec fn batch_judged(
    batch: SignedTransactionBatch,
    size: nat,
    signature_ok: bool,
    proofs_ok: bool,
    r: Result<(), TpuError>,
) -> bool {
    match batch_flaw_of(batch, size) {
        Some(flaw) => r matches Err(e) && says_batch_flaw(e, flaw, size),
        None => if !signature_ok {
            r matches Err(TpuError::InvalidBatch(s)) && s@ == "batch signature verification failed"@
        } else if !proofs_ok {
            r matches Err(TpuError::InvalidBatch(s)) && s@
                == "batch merkle proof verification failed"@
        } else {
            r is Ok
        },
    }
}

/// Validate a signed transaction batch.
///
/// Validation order: cheap structural, absolute size cap, entry count cap, per-entry
/// structural, one signature check, the Merkle proof checks.
pub fn validate_batch<
    F: FnOnce(&SignedTransactionBatch) -> bool,
    G: FnOnce(&SignedTransactionBatch) -> bool,
>(
    batch: &SignedTransactionBatch,
    decompressed_wire_size: usize,
    verify_signature: F,
    verify_all: G,
) -> (r: Result<(), TpuError>)
    requires
        verify_signature.requires((batch,)),
        verify_all.requires((batch,)),
    ensures
        exists|signature_ok: bool, proofs_ok: bool| #[trigger]
            batch_judged(*batch, decompressed_wire_size as nat, signature_ok, proofs_ok, r) && (
            batch_flaw_of(*batch, decompressed_wire_size as nat) is None
                ==> verify_signature.ensures((batch,), signature_ok) && (signature_ok
                ==> verify_all.ensures((batch,), proofs_ok))),
{
    match validate_batch_structure(batch, decompressed_wire_size) {
        Err(e) => {
            let r: Result<(), TpuError> = Err(e);
            assert(batch_judged(*batch, decompressed_wire_size as nat, true, true, r));
            return r;
        },
        Ok(()) => {},
    }
    if !verify_signature(batch) {
        let r: Result<(), TpuError> = Err(
            TpuError::InvalidBatch(string("batch signature verification failed")),
        );
        assert(batch_judged(*batch, decompressed_wire_size as nat, false, true, r));
        return r;
    }
    if !verify_all(batch) {
        let r: Result<(), TpuError> = Err(
            TpuError::InvalidBatch(string("batch merkle proof verification failed")),
        );
        assert(batch_judged(*batch, decompressed_wire_size as nat, true, false, r));
        return r;
    }
    let r: Result<(), TpuError> = Ok(());
    assert(batch_judged(*batch, decompressed_wire_size as nat, true, true, r));
    r
}

/// A transaction is taken in exactly if it names accounts, is signed as often as it says and at
/// least once, names an account and gives a key for each signature, runs only programs among
/// its accounts, is no longer than 65536 bytes, and its signatures are good.
pub proof fn good_transactions_are_taken_in(
    tx: Transaction,
    size: nat,
    signatures: Result<(), String>,
    r: Result<(), TpuError>,
)
    requires
        judged(tx, size, signatures, r),
    ensures
        r is Ok <==> {
            let n = tx.signatures@.len();
            &&& n > 0
            &&& n == tx.message.num_required_signatures
            &&& n == tx.signer_pubkeys@.len()
            &&& n <= tx.message.account_keys@.len()
            &&& forall|i: int|
                0 <= i < tx.message.instructions@.len() ==> (
                #[trigger] tx.message.instructions@[i]).program_id_index
                    < tx.message.account_keys@.len()
            &&& size <= 65536
            &&& signatures is Ok
        },
        flaw_of(tx, size) is None && signatures is Err ==> (r matches Err(
            TpuError::InvalidTransaction(_),
        )),
        (r matches Err(TpuError::TransactionTooLarge { size: got, max_size }) ==> got == size
            && max_size == 65536 && size > 65536),
{
}

proof fn lemma_entries_flawless(batch: SignedTransactionBatch, i: nat)
    requires
        i <= batch.entries@.len(),
    ensures
        first_entry_flaw(batch, i) is None <==> forall|j: int|
            i <= j < batch.entries@.len() ==> {
                let m = (#[trigger] batch.entries@[j]).message;
                m.account_keys@.len() > 0 && programs_listed(m)
            },
    decreases batch.entries@.len() - i,
{
    if i < batch.entries@.len() {
        lemma_entries_flawless(batch, i + 1);
        let m = batch.entries@[i as int].message;
    }
}

/// A signed batch is taken in exactly if it has one to 64 entries, is no longer than four
/// mebibytes, every entry names accounts and runs only programs among them, and both its
/// signature and its proofs are good.
pub proof fn good_batches_are_taken_in(
    batch: SignedTransactionBatch,
    size: nat,
    signature_ok: bool,
    proofs_ok: bool,
    r: Result<(), TpuError>,
)
    requires
        batch_judged(batch, size, signature_ok, proofs_ok, r),
    ensures
        r is Ok <==> {
            &&& 0 < batch.entries@.len() <= 64
            &&& size <= 4_194_304
            &&& forall|j: int|
                0 <= j < batch.entries@.len() ==> (
                #[trigger] batch.entries@[j]).message.account_keys@.len() > 0
            &&& forall|j: int, i: int|
                0 <= j < batch.entries@.len() && 0 <= i
                    < batch.entries@[j].message.instructions@.len() ==> (
                #[trigger] batch.entries@[j].message.instructions@[i]).program_id_index
                    < batch.entries@[j].message.account_keys@.len()
            &&& signature_ok
            &&& proofs_ok
        },
{
    lemma_entries_flawless(batch, 0);
    if forall|j: int, i: int|
        0 <= j < batch.entries@.len() && 0 <= i < batch.entries@[j].message.instructions@.len() ==> (
        #[trigger] batch.entries@[j].message.instructions@[i]).program_id_index
            < batch.entries@[j].message.account_keys@.len() {
        assert forall|j: int| 0 <= j < batch.entries@.len() implies programs_listed(
            (#[trigger] batch.entries@[j]).message,
        ) by {
            let m = batch.entries@[j].message;
            assert forall|i: int| 0 <= i < m.instructions@.len() implies (
            #[trigger] m.instructions@[i]).program_id_index < m.account_keys@.len() by {
                assert(batch.entries@[j].message.instructions@[i] == m.instructions@[i]);
            }
        }
    }
}

} // verus!
