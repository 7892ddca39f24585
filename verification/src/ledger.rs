//! Accounts, transactions and blocks, and their binary layout.

use crate::codec::{lemma_byte_model, Codec, Fault};
use crate::digest::Digest;
use crate::merkle::MerkleProof;
use vstd::prelude::*;
use vstd::slice::slice_to_vec;

verus! {

/// An account: its balance, the program that owns it, and whatever that program keeps in
/// it.
#[derive(Debug, PartialEq, Eq)]
pub struct Account {
    pub lamports: u64,
    pub owner: Digest,
    pub data: Vec<u8>,
}

/// An account that an instruction touches.
#[derive(Clone, Copy, Debug, PartialEq, Eq)]
pub struct AccountMeta {
    pub pubkey: Digest,
    pub is_signer: bool,
    pub is_writable: bool,
}

/// A call of a program.
#[derive(Clone, Debug, PartialEq, Eq)]
pub struct Instruction {
    pub program_id: Digest,
    pub accounts: Vec<AccountMeta>,
    pub data: Vec<u8>,
}

/// A call of a program inside a message: accounts are given by their place in the
/// message's list.
#[derive(Clone, Debug, PartialEq, Eq)]
pub struct CompiledInstruction {
    pub program_id_index: u8,
    pub accounts: Vec<u8>,
    pub data: Vec<u8>,
}

/// What a transaction's signers sign.
#[derive(Clone, Debug, PartialEq, Eq)]
pub struct Message {
    pub num_required_signatures: u8,
    pub num_readonly_signed: u8,
    pub num_readonly_unsigned: u8,
    pub account_keys: Vec<Digest>,
    pub recent_blockhash: Digest,
    pub instructions: Vec<CompiledInstruction>,
}

/// A message with its signatures, and the public keys to check them by, both in their
/// binary form.
#[derive(Clone, Debug, PartialEq, Eq)]
pub struct Transaction {
    pub signatures: Vec<Vec<u8>>,
    pub signer_pubkeys: Vec<Vec<u8>>,
    pub message: Message,
}

/// A message of a batch, with the proof that it stands under the batch's root.
#[derive(Clone, Debug, PartialEq, Eq)]
pub struct BatchEntry {
    pub message: Message,
    pub proof: MerkleProof,
}

/// Messages under one signature over the root of a Merkle tree. The signer's public key and
/// the signature are in their binary form.
#[derive(Clone, Debug, PartialEq, Eq)]
pub struct SignedTransactionBatch {
    pub signer_pubkey: Vec<u8>,
    pub merkle_root: Digest,
    pub signature: Vec<u8>,
    pub entries: Vec<BatchEntry>,
}

/// What a block is known by.
#[derive(Clone, Copy, Debug, PartialEq, Eq)]
pub struct BlockHeader {
    pub slot: u64,
    pub parent_slot: u64,
    pub parent_hash: Digest,
    pub block_hash: Digest,
    pub timestamp: i64,
    pub validator: Digest,
    pub transaction_count: u64,
    pub merkle_root: Digest,
    pub poh_hash: Digest,
    pub bank_hash: Digest,
    pub state_root: Digest,
}

/// A block: its header, its transactions, and its signed batches.
#[derive(Clone, Debug, PartialEq, Eq)]
pub struct Block {
    pub header: BlockHeader,
    pub transactions: Vec<Transaction>,
    pub batches: Vec<SignedTransactionBatch>,
}

/// The fields of an account in the order of its layout.
pub type AccountFields = (u64, (Digest, Vec<u8>));

impl Codec for Account {
    type M = <AccountFields as Codec>::M;

    open spec fn model(&self) -> Self::M {
        (self.lamports.model(), (self.owner.model(), self.data.model()))
    }

    open spec fn well_formed(&self) -> bool {
        true
    }

    open spec fn layout(m: Self::M) -> Seq<u8> {
        <AccountFields as Codec>::layout(m)
    }

    open spec fn fits(m: Self::M) -> bool {
        <AccountFields as Codec>::fits(m)
    }

    open spec fn fault(bytes: Seq<u8>) -> Fault {
        <AccountFields as Codec>::fault(bytes)
    }

    proof fn prefix_free(a: Self::M, b: Self::M, s: Seq<u8>, t: Seq<u8>) {
        <AccountFields as Codec>::prefix_free(a, b, s, t);
    }

    fn encode(&self, out: &mut Vec<u8>) -> (ok: bool) {
        let _ = self.lamports.encode(out);
        let _ = self.owner.encode(out);
        let data_ok = self.data.encode(out);
        assert(data_ok ==> out@ =~= old(out)@ + Self::layout(self.model()));
        data_ok
    }

    fn decode<'a>(input: &'a [u8]) -> (r: Result<(Self, &'a [u8]), Fault>) {
        match <AccountFields as Codec>::decode(input) {
            Ok(((lamports, (owner, data)), rest)) => Ok((Account { lamports, owner, data }, rest)),
            Err(f) => Err(f),
        }
    }
}

/// The fields of a compiled instruction in the order of its layout.
pub type CompiledInstructionFields = (u8, (Vec<u8>, Vec<u8>));

impl Codec for CompiledInstruction {
    type M = <CompiledInstructionFields as Codec>::M;

    open spec fn model(&self) -> Self::M {
        (self.program_id_index.model(), (self.accounts.model(), self.data.model()))
    }

    open spec fn well_formed(&self) -> bool {
        true
    }

    open spec fn layout(m: Self::M) -> Seq<u8> {
        <CompiledInstructionFields as Codec>::layout(m)
    }

    open spec fn fits(m: Self::M) -> bool {
        <CompiledInstructionFields as Codec>::fits(m)
    }

    open spec fn fault(bytes: Seq<u8>) -> Fault {
        <CompiledInstructionFields as Codec>::fault(bytes)
    }

    proof fn prefix_free(a: Self::M, b: Self::M, s: Seq<u8>, t: Seq<u8>) {
        <CompiledInstructionFields as Codec>::prefix_free(a, b, s, t);
    }

    fn encode(&self, out: &mut Vec<u8>) -> (ok: bool) {
        let _ = self.program_id_index.encode(out);
        let accounts_ok = self.accounts.encode(out);
        let data_ok = self.data.encode(out);
        let ok = accounts_ok && data_ok;
        assert(ok ==> out@ =~= old(out)@ + Self::layout(self.model()));
        ok
    }

    fn decode<'a>(input: &'a [u8]) -> (r: Result<(Self, &'a [u8]), Fault>) {
        match <CompiledInstructionFields as Codec>::decode(input) {
            Ok(((program_id_index, (accounts, data)), rest)) => Ok((
                CompiledInstruction { program_id_index, accounts, data },
                rest,
            )),
            Err(f) => Err(f),
        }
    }
}

/// The fields of a message in the order of its layout.
pub type MessageFields = (u8, (u8, (u8, (Vec<Digest>, (Digest, Vec<CompiledInstruction>)))));

impl Codec for Message {
    type M = <MessageFields as Codec>::M;

    open spec fn model(&self) -> Self::M {
        (
            self.num_required_signatures.model(),
            (
                self.num_readonly_signed.model(),
                (
                    self.num_readonly_unsigned.model(),
                    (
                        self.account_keys.model(),
                        (self.recent_blockhash.model(), self.instructions.model()),
                    ),
                ),
            ),
        )
    }

    open spec fn well_formed(&self) -> bool {
        true
    }

    open spec fn layout(m: Self::M) -> Seq<u8> {
        <MessageFields as Codec>::layout(m)
    }

    open spec fn fits(m: Self::M) -> bool {
        <MessageFields as Codec>::fits(m)
    }

    open spec fn fault(bytes: Seq<u8>) -> Fault {
        <MessageFields as Codec>::fault(bytes)
    }

    proof fn prefix_free(a: Self::M, b: Self::M, s: Seq<u8>, t: Seq<u8>) {
        <MessageFields as Codec>::prefix_free(a, b, s, t);
    }

    fn encode(&self, out: &mut Vec<u8>) -> (ok: bool) {
        let _ = self.num_required_signatures.encode(out);
        let _ = self.num_readonly_signed.encode(out);
        let _ = self.num_readonly_unsigned.encode(out);
        let account_keys_ok = self.account_keys.encode(out);
        let _ = self.recent_blockhash.encode(out);
        let instructions_ok = self.instructions.encode(out);
        let ok = account_keys_ok && instructions_ok;
        assert(ok ==> out@ =~= old(out)@ + Self::layout(self.model()));
        ok
    }

    fn decode<'a>(input: &'a [u8]) -> (r: Result<(Self, &'a [u8]), Fault>) {
        match <MessageFields as Codec>::decode(input) {
            Ok((
                (
                    num_required_signatures,
                    (
                        num_readonly_signed,
                        (num_readonly_unsigned, (account_keys, (recent_blockhash, instructions))),
                    ),
                ),
                rest,
            )) => Ok((
                Message {
                    num_required_signatures,
                    num_readonly_signed,
                    num_readonly_unsigned,
                    account_keys,
                    recent_blockhash,
                    instructions,
                },
                rest,
            )),
            Err(f) => Err(f),
        }
    }
}

/// The fields of a transaction in the order of its layout.
pub type TransactionFields = (Vec<Vec<u8>>, (Vec<Vec<u8>>, Message));

impl Codec for Transaction {
    type M = <TransactionFields as Codec>::M;

    open spec fn model(&self) -> Self::M {
        (self.signatures.model(), (self.signer_pubkeys.model(), self.message.model()))
    }

    open spec fn well_formed(&self) -> bool {
        true
    }

    open spec fn layout(m: Self::M) -> Seq<u8> {
        <TransactionFields as Codec>::layout(m)
    }

    open spec fn fits(m: Self::M) -> bool {
        <TransactionFields as Codec>::fits(m)
    }

    open spec fn fault(bytes: Seq<u8>) -> Fault {
        <TransactionFields as Codec>::fault(bytes)
    }

    proof fn prefix_free(a: Self::M, b: Self::M, s: Seq<u8>, t: Seq<u8>) {
        <TransactionFields as Codec>::prefix_free(a, b, s, t);
    }

    fn encode(&self, out: &mut Vec<u8>) -> (ok: bool) {
        let signatures_ok = self.signatures.encode(out);
        let signer_pubkeys_ok = self.signer_pubkeys.encode(out);
        let message_ok = self.message.encode(out);
        let ok = signatures_ok && signer_pubkeys_ok && message_ok;
        assert(ok ==> out@ =~= old(out)@ + Self::layout(self.model()));
        ok
    }

    fn decode<'a>(input: &'a [u8]) -> (r: Result<(Self, &'a [u8]), Fault>) {
        match <TransactionFields as Codec>::decode(input) {
            Ok(((signatures, (signer_pubkeys, message)), rest)) => Ok((
                Transaction { signatures, signer_pubkeys, message },
                rest,
            )),
            Err(f) => Err(f),
        }
    }
}

/// The fields of an entry of a batch in the order of its layout.
pub type BatchEntryFields = (Message, MerkleProof);

impl Codec for BatchEntry {
    type M = <BatchEntryFields as Codec>::M;

    open spec fn model(&self) -> Self::M {
        (self.message.model(), self.proof.model())
    }

    open spec fn well_formed(&self) -> bool {
        true
    }

    open spec fn layout(m: Self::M) -> Seq<u8> {
        <BatchEntryFields as Codec>::layout(m)
    }

    open spec fn fits(m: Self::M) -> bool {
        <BatchEntryFields as Codec>::fits(m)
    }

    open spec fn fault(bytes: Seq<u8>) -> Fault {
        <BatchEntryFields as Codec>::fault(bytes)
    }

    proof fn prefix_free(a: Self::M, b: Self::M, s: Seq<u8>, t: Seq<u8>) {
        <BatchEntryFields as Codec>::prefix_free(a, b, s, t);
    }

    fn encode(&self, out: &mut Vec<u8>) -> (ok: bool) {
        let message_ok = self.message.encode(out);
        let proof_ok = self.proof.encode(out);
        let ok = message_ok && proof_ok;
        assert(ok ==> out@ =~= old(out)@ + Self::layout(self.model()));
        ok
    }

    fn decode<'a>(input: &'a [u8]) -> (r: Result<(Self, &'a [u8]), Fault>) {
        match <BatchEntryFields as Codec>::decode(input) {
            Ok(((message, proof), rest)) => Ok((BatchEntry { message, proof }, rest)),
            Err(f) => Err(f),
        }
    }
}

/// The fields of a signed batch in the order of its layout.
pub type SignedTransactionBatchFields = (Vec<u8>, (Digest, (Vec<u8>, Vec<BatchEntry>)));

impl Codec for SignedTransactionBatch {
    type M = <SignedTransactionBatchFields as Codec>::M;

    open spec fn model(&self) -> Self::M {
        (
            self.signer_pubkey.model(),
            (self.merkle_root.model(), (self.signature.model(), self.entries.model())),
        )
    }

    open spec fn well_formed(&self) -> bool {
        true
    }

    open spec fn layout(m: Self::M) -> Seq<u8> {
        <SignedTransactionBatchFields as Codec>::layout(m)
    }

    open spec fn fits(m: Self::M) -> bool {
        <SignedTransactionBatchFields as Codec>::fits(m)
    }

    open spec fn fault(bytes: Seq<u8>) -> Fault {
        <SignedTransactionBatchFields as Codec>::fault(bytes)
    }

    proof fn prefix_free(a: Self::M, b: Self::M, s: Seq<u8>, t: Seq<u8>) {
        <SignedTransactionBatchFields as Codec>::prefix_free(a, b, s, t);
    }

    fn encode(&self, out: &mut Vec<u8>) -> (ok: bool) {
        let signer_pubkey_ok = self.signer_pubkey.encode(out);
        let _ = self.merkle_root.encode(out);
        let signature_ok = self.signature.encode(out);
        let entries_ok = self.entries.encode(out);
        let ok = signer_pubkey_ok && signature_ok && entries_ok;
        assert(ok ==> out@ =~= old(out)@ + Self::layout(self.model()));
        ok
    }

    fn decode<'a>(input: &'a [u8]) -> (r: Result<(Self, &'a [u8]), Fault>) {
        match <SignedTransactionBatchFields as Codec>::decode(input) {
            Ok(((signer_pubkey, (merkle_root, (signature, entries))), rest)) => Ok((
                SignedTransactionBatch { signer_pubkey, merkle_root, signature, entries },
                rest,
            )),
            Err(f) => Err(f),
        }
    }
}

/// The fields of a block header in the order of its layout.
pub type BlockHeaderFields = (
    u64,
    (u64, (Digest, (Digest, (i64, (Digest, (u64, (Digest, (Digest, (Digest, Digest))))))))),
);

impl Codec for BlockHeader {
    type M = <BlockHeaderFields as Codec>::M;

    open spec fn model(&self) -> Self::M {
        (
            self.slot.model(),
            (
                self.parent_slot.model(),
                (
                    self.parent_hash.model(),
                    (
                        self.block_hash.model(),
                        (
                            self.timestamp.model(),
                            (
                                self.validator.model(),
                                (
                                    self.transaction_count.model(),
                                    (
                                        self.merkle_root.model(),
                                        (
                                            self.poh_hash.model(),
                                            (self.bank_hash.model(), self.state_root.model()),
                                        ),
                                    ),
                                ),
                            ),
                        ),
                    ),
                ),
            ),
        )
    }

    open spec fn well_formed(&self) -> bool {
        true
    }

    open spec fn layout(m: Self::M) -> Seq<u8> {
        <BlockHeaderFields as Codec>::layout(m)
    }

    open spec fn fits(m: Self::M) -> bool {
        <BlockHeaderFields as Codec>::fits(m)
    }

    open spec fn fault(bytes: Seq<u8>) -> Fault {
        <BlockHeaderFields as Codec>::fault(bytes)
    }

    proof fn prefix_free(a: Self::M, b: Self::M, s: Seq<u8>, t: Seq<u8>) {
        <BlockHeaderFields as Codec>::prefix_free(a, b, s, t);
    }

    fn encode(&self, out: &mut Vec<u8>) -> (ok: bool) {
        let _ = self.slot.encode(out);
        let _ = self.parent_slot.encode(out);
        let _ = self.parent_hash.encode(out);
        let _ = self.block_hash.encode(out);
        let _ = self.timestamp.encode(out);
        let _ = self.validator.encode(out);
        let _ = self.transaction_count.encode(out);
        let _ = self.merkle_root.encode(out);
        let _ = self.poh_hash.encode(out);
        let _ = self.bank_hash.encode(out);
        let _ = self.state_root.encode(out);
        assert(out@ =~= old(out)@ + Self::layout(self.model()));
        true
    }

    fn decode<'a>(input: &'a [u8]) -> (r: Result<(Self, &'a [u8]), Fault>) {
        match <BlockHeaderFields as Codec>::decode(input) {
            Ok((
                (
                    slot,
                    (
                        parent_slot,
                        (
                            parent_hash,
                            (
                                block_hash,
                                (
                                    timestamp,
                                    (
                                        validator,
                                        (
                                            transaction_count,
                                            (merkle_root, (poh_hash, (bank_hash, state_root))),
                                        ),
                                    ),
                                ),
                            ),
                        ),
                    ),
                ),
                rest,
            )) => Ok((
                BlockHeader {
                    slot,
                    parent_slot,
                    parent_hash,
                    block_hash,
                    timestamp,
                    validator,
                    transaction_count,
                    merkle_root,
                    poh_hash,
                    bank_hash,
                    state_root,
                },
                rest,
            )),
            Err(f) => Err(f),
        }
    }
}

/// The fields of a block in the order of its layout.
pub type BlockFields = (BlockHeader, (Vec<Transaction>, Vec<SignedTransactionBatch>));

impl Codec for Block {
    type M = <BlockFields as Codec>::M;

    open spec fn model(&self) -> Self::M {
        (self.header.model(), (self.transactions.model(), self.batches.model()))
    }

    open spec fn well_formed(&self) -> bool {
        true
    }

    open spec fn layout(m: Self::M) -> Seq<u8> {
        <BlockFields as Codec>::layout(m)
    }

    open spec fn fits(m: Self::M) -> bool {
        <BlockFields as Codec>::fits(m)
    }

    open spec fn fault(bytes: Seq<u8>) -> Fault {
        <BlockFields as Codec>::fault(bytes)
    }

    proof fn prefix_free(a: Self::M, b: Self::M, s: Seq<u8>, t: Seq<u8>) {
        <BlockFields as Codec>::prefix_free(a, b, s, t);
    }

    fn encode(&self, out: &mut Vec<u8>) -> (ok: bool) {
        let _ = self.header.encode(out);
        let transactions_ok = self.transactions.encode(out);
        let batches_ok = self.batches.encode(out);
        let ok = transactions_ok && batches_ok;
        assert(ok ==> out@ =~= old(out)@ + Self::layout(self.model()));
        ok
    }

    fn decode<'a>(input: &'a [u8]) -> (r: Result<(Self, &'a [u8]), Fault>) {
        match <BlockFields as Codec>::decode(input) {
            Ok(((header, (transactions, batches)), rest)) => Ok((
                Block { header, transactions, batches },
                rest,
            )),
            Err(f) => Err(f),
        }
    }
}

impl AccountMeta {
    /// An account that is written to.
    pub fn new(pubkey: Digest, is_signer: bool) -> (r: Self)
        ensures
            r == (AccountMeta { pubkey, is_signer, is_writable: true }),
    {
        AccountMeta { pubkey, is_signer, is_writable: true }
    }

    /// An account that is only read.
    pub fn new_readonly(pubkey: Digest, is_signer: bool) -> (r: Self)
        ensures
            r == (AccountMeta { pubkey, is_signer, is_writable: false }),
    {
        AccountMeta { pubkey, is_signer, is_writable: false }
    }
}

/// An account that is written to.
pub open spec fn writable(pubkey: Digest, is_signer: bool) -> AccountMeta {
    AccountMeta { pubkey, is_signer, is_writable: true }
}

/// An account that is only read.
pub open spec fn readonly(pubkey: Digest, is_signer: bool) -> AccountMeta {
    AccountMeta { pubkey, is_signer, is_writable: false }
}

/// A call of a program with the layout of `m` as its data.
pub open spec fn calls<T: Codec>(
    ix: Instruction,
    program_id: Digest,
    accounts: Seq<AccountMeta>,
    m: T::M,
) -> bool {
    &&& ix.program_id == program_id
    &&& ix.accounts@ == accounts
    &&& ix.data@ == T::layout(m)
}

/// A call of a program with `data` as its data.
pub fn call<T: Codec>(program_id: Digest, accounts: Vec<AccountMeta>, data: &T) -> (r: Instruction)
    requires
        T::fits(data.model()),
    ensures
        calls::<T>(r, program_id, accounts@, data.model()),
{
    let mut bytes: Vec<u8> = Vec::new();
    let _ = data.encode(&mut bytes);
    assert(bytes@ =~= T::layout(data.model()));
    Instruction { program_id, accounts, data: bytes }
}

impl Account {
    /// An account without data.
    pub fn new(lamports: u64, owner: Digest) -> (r: Self)
        ensures
            r.lamports == lamports,
            r.owner == owner,
            r.data@.len() == 0,
    {
        Account { lamports, owner, data: Vec::new() }
    }
}

impl Transaction {
    /// A message that nobody has signed yet.
    pub fn new(message: Message) -> (r: Self)
        ensures
            r.message == message,
            r.signatures@.len() == 0,
            r.signer_pubkeys@.len() == 0,
    {
        Transaction { signatures: Vec::new(), signer_pubkeys: Vec::new(), message }
    }
}

impl Clone for Account {
    fn clone(&self) -> (r: Self)
        ensures
            r.model() == self.model(),
    {
        let r = Account {
            lamports: self.lamports,
            owner: self.owner,
            data: slice_to_vec(self.data.as_slice()),
        };
        proof {
            lemma_byte_model(self.data@);
        }
        r
    }
}

/// Every instruction names a program that is in the message's list of accounts.
pub open spec fn programs_listed(m: Message) -> bool {
    forall|i: int|
        0 <= i < m.instructions@.len() ==> (#[trigger] m.instructions@[i]).program_id_index
            < m.account_keys@.len()
}

impl Message {
    /// Whether every instruction names a program that is in the list of accounts.
    pub fn programs_are_listed(&self) -> (r: bool)
        ensures
            r == programs_listed(*self),
    {
        let n: usize = self.instructions.len();
        let keys: usize = self.account_keys.len();
        let mut i: usize = 0;
        while i < n
            invariant
                i <= n == self.instructions@.len(),
                keys == self.account_keys@.len(),
                forall|k: int|
                    0 <= k < i ==> (#[trigger] self.instructions@[k]).program_id_index < keys,
            decreases n - i,
        {
            if self.instructions[i].program_id_index as usize >= keys {
                return false;
            }
            i = i + 1;
        }
        true
    }
}

/// An account is written field by field, in this order.
pub proof fn account_is_written_in_order(x: Account)
    ensures
        <Account as Codec>::layout(x.model()) == <u64 as Codec>::layout(x.lamports.model())
            + <Digest as Codec>::layout(x.owner.model())
            + <Vec<u8> as Codec>::layout(x.data.model()),
{
}

/// A compiled instruction is written field by field, in this order.
pub proof fn compiled_instruction_is_written_in_order(x: CompiledInstruction)
    ensures
        <CompiledInstruction as Codec>::layout(x.model()) == <u8 as Codec>::layout(x.program_id_index.model())
            + <Vec<u8> as Codec>::layout(x.accounts.model())
            + <Vec<u8> as Codec>::layout(x.data.model()),
{
}

/// A message is written field by field, in this order.
pub proof fn message_is_written_in_order(x: Message)
    ensures
        <Message as Codec>::layout(x.model()) == <u8 as Codec>::layout(x.num_required_signatures.model())
            + <u8 as Codec>::layout(x.num_readonly_signed.model())
            + <u8 as Codec>::layout(x.num_readonly_unsigned.model())
            + <Vec<Digest> as Codec>::layout(x.account_keys.model())
            + <Digest as Codec>::layout(x.recent_blockhash.model())
            + <Vec<CompiledInstruction> as Codec>::layout(x.instructions.model()),
{
}

/// A transaction is written field by field, in this order.
pub proof fn transaction_is_written_in_order(x: Transaction)
    ensures
        <Transaction as Codec>::layout(x.model()) == <Vec<Vec<u8>> as Codec>::layout(x.signatures.model())
            + <Vec<Vec<u8>> as Codec>::layout(x.signer_pubkeys.model())
            + <Message as Codec>::layout(x.message.model()),
{
}

/// A batch entry is written field by field, in this order.
pub proof fn batch_entry_is_written_in_order(x: BatchEntry)
    ensures
        <BatchEntry as Codec>::layout(x.model()) == <Message as Codec>::layout(x.message.model())
            + <MerkleProof as Codec>::layout(x.proof.model()),
{
}

/// A signed transaction batch is written field by field, in this order.
pub proof fn signed_transaction_batch_is_written_in_order(x: SignedTransactionBatch)
    ensures
        <SignedTransactionBatch as Codec>::layout(x.model()) == <Vec<u8> as Codec>::layout(x.signer_pubkey.model())
            + <Digest as Codec>::layout(x.merkle_root.model())
            + <Vec<u8> as Codec>::layout(x.signature.model())
            + <Vec<BatchEntry> as Codec>::layout(x.entries.model()),
{
}

/// A block header is written field by field, in this order.
pub proof fn block_header_is_written_in_order(x: BlockHeader)
    ensures
        <BlockHeader as Codec>::layout(x.model()) == <u64 as Codec>::layout(x.slot.model())
            + <u64 as Codec>::layout(x.parent_slot.model())
            + <Digest as Codec>::layout(x.parent_hash.model())
            + <Digest as Codec>::layout(x.block_hash.model())
            + <i64 as Codec>::layout(x.timestamp.model())
            + <Digest as Codec>::layout(x.validator.model())
            + <u64 as Codec>::layout(x.transaction_count.model())
            + <Digest as Codec>::layout(x.merkle_root.model())
            + <Digest as Codec>::layout(x.poh_hash.model())
            + <Digest as Codec>::layout(x.bank_hash.model())
            + <Digest as Codec>::layout(x.state_root.model()),
{
}

/// A block is written field by field, in this order.
pub proof fn block_is_written_in_order(x: Block)
    ensures
        <Block as Codec>::layout(x.model()) == <BlockHeader as Codec>::layout(x.header.model())
            + <Vec<Transaction> as Codec>::layout(x.transactions.model())
            + <Vec<SignedTransactionBatch> as Codec>::layout(x.batches.model()),
{
}

} // verus!
