//! Messages between nodes: transactions, alone or in batches.

use crate::codec::{
    encodes, from_slice, layout_is_injective, misreading, to_vec, Codec, CodecError, Fault,
};
use crate::ledger::{SignedTransactionBatch, Transaction};
use crate::storage::error::codec_error_text;
use crate::text::{decimal, push_str, push_u64, push_usize, string};
use crate::tpu::compression::{compress, decompress, first_of, opened, peek, tells_why};
use crate::tpu::error::TpuError;
use crate::zstd_frames::payload_of;
use vstd::prelude::*;
use vstd::slice::slice_subrange;

verus! {

pub const MAX_TRANSACTION_SIZE: u64 = 65536;

pub const MAX_UNSIGNED_BATCH_TXS: u64 = 64;

pub const MAX_BATCH_ENTRIES: u64 = 64;

/// Decompressed size limit for a single-transaction message.
pub const MAX_SINGLE_DECOMPRESSED: usize = 65536;

/// Decompressed size limit for any batch message: as many transactions of the largest
/// size as a batch may have. It does not depend on the compressed wire size.
pub const MAX_BATCH_DECOMPRESSED: usize = 4194304;

#[derive(Clone, Debug, PartialEq, Eq)]
pub enum TpuMessage {
    /// A single signed transaction.
    Transaction(Box<Transaction>),
    /// An unsigned batch forwarded by a downstream TPU relay.
    /// Capped at `MAX_UNSIGNED_BATCH_TXS` entries to prevent forced crypto work.
    TransactionBatch(Vec<Transaction>),
    /// A batch with a single signature over a Merkle root.
    SignedBatch(Box<SignedTransactionBatch>),
}

pub type TransactionModel = <Transaction as Codec>::M;

pub type SignedBatchModel = <SignedTransactionBatch as Codec>::M;

/// A message, as a mathematical value.
pub enum MessageModel {
    Transaction(TransactionModel),
    TransactionBatch(Seq<TransactionModel>),
    SignedBatch(SignedBatchModel),
}

impl MessageModel {
    pub open spec fn tag(self) -> u8 {
        match self {
            MessageModel::Transaction(_) => 0,
            MessageModel::TransactionBatch(_) => 1,
            MessageModel::SignedBatch(_) => 2,
        }
    }

    pub open spec fn body(self) -> Seq<u8> {
        match self {
            MessageModel::Transaction(tx) => <Transaction as Codec>::layout(tx),
            MessageModel::TransactionBatch(txs) => <Vec<Transaction> as Codec>::layout(txs),
            MessageModel::SignedBatch(batch) => <SignedTransactionBatch as Codec>::layout(batch),
        }
    }
}

/// A message is laid out as a byte that tells its kind, then what it holds.
impl Codec for TpuMessage {
    type M = MessageModel;

    open spec fn model(&self) -> MessageModel {
        match *self {
            TpuMessage::Transaction(tx) => MessageModel::Transaction((*tx).model()),
            TpuMessage::TransactionBatch(txs) => MessageModel::TransactionBatch(txs.model()),
            TpuMessage::SignedBatch(batch) => MessageModel::SignedBatch((*batch).model()),
        }
    }

    open spec fn well_formed(&self) -> bool {
        true
    }

    open spec fn layout(m: MessageModel) -> Seq<u8> {
        seq![m.tag()] + m.body()
    }

    open spec fn fits(m: MessageModel) -> bool {
        match m {
            MessageModel::Transaction(tx) => <Transaction as Codec>::fits(tx),
            MessageModel::TransactionBatch(txs) => <Vec<Transaction> as Codec>::fits(txs),
            MessageModel::SignedBatch(batch) => <SignedTransactionBatch as Codec>::fits(batch),
        }
    }

    open spec fn fault(bytes: Seq<u8>) -> Fault {
        let tail = bytes.drop_first();
        if bytes.len() == 0 {
            Fault::Short
        } else if bytes[0] == 0 {
            <Transaction as Codec>::fault(tail)
        } else if bytes[0] == 1 {
            <Vec<Transaction> as Codec>::fault(tail)
        } else if bytes[0] == 2 {
            <SignedTransactionBatch as Codec>::fault(tail)
        } else {
            Fault::Variant(bytes[0])
        }
    }

    proof fn prefix_free(a: MessageModel, b: MessageModel, s: Seq<u8>, t: Seq<u8>) {
        let x = Self::layout(a) + s;
        let y = Self::layout(b) + t;
        assert(x[0] == a.tag());
        assert(y[0] == b.tag());
        assert(x.drop_first() =~= a.body() + s);
        assert(y.drop_first() =~= b.body() + t);
        match (a, b) {
            (MessageModel::Transaction(p), MessageModel::Transaction(q)) => {
                <Transaction as Codec>::prefix_free(p, q, s, t);
            },
            (MessageModel::TransactionBatch(p), MessageModel::TransactionBatch(q)) => {
                <Vec<Transaction> as Codec>::prefix_free(p, q, s, t);
            },
            (MessageModel::SignedBatch(p), MessageModel::SignedBatch(q)) => {
                <SignedTransactionBatch as Codec>::prefix_free(p, q, s, t);
            },
            _ => {},
        }
    }

    fn encode(&self, out: &mut Vec<u8>) -> (ok: bool) {
        let ok: bool;
        match self {
            TpuMessage::Transaction(tx) => {
                out.push(0);
                ok = (**tx).encode(out);
            },
            TpuMessage::TransactionBatch(txs) => {
                out.push(1);
                ok = txs.encode(out);
            },
            TpuMessage::SignedBatch(batch) => {
                out.push(2);
                ok = (**batch).encode(out);
            },
        }
        assert(ok ==> out@ =~= old(out)@ + Self::layout(self.model()));
        ok
    }

    fn decode<'a>(input: &'a [u8]) -> (r: Result<(Self, &'a [u8]), Fault>) {
        let len: usize = input.len();
        if len == 0 {
            assert forall|m: MessageModel, rest: Seq<u8>| Self::fits(m) implies input@
                != #[trigger] (Self::layout(m) + rest) by {
                assert((Self::layout(m) + rest).len() > 0);
            }
            return Err(Fault::Short);
        }
        let tag: u8 = input[0];
        let tail = slice_subrange(input, 1, len);
        assert(input@ =~= seq![tag] + tail@);
        let r: Result<(Self, &'a [u8]), Fault> = if tag == 0 {
            match <Transaction as Codec>::decode(tail) {
                Ok((tx, rest)) => Ok((TpuMessage::Transaction(Box::new(tx)), rest)),
                Err(f) => Err(f),
            }
        } else if tag == 1 {
            match <Vec<Transaction> as Codec>::decode(tail) {
                Ok((txs, rest)) => Ok((TpuMessage::TransactionBatch(txs), rest)),
                Err(f) => Err(f),
            }
        } else if tag == 2 {
            match <SignedTransactionBatch as Codec>::decode(tail) {
                Ok((batch, rest)) => Ok((TpuMessage::SignedBatch(Box::new(batch)), rest)),
                Err(f) => Err(f),
            }
        } else {
            Err(Fault::Variant(tag))
        };
        proof {
            if r is Ok {
                let m = (r->Ok_0).0.model();
                let rest = (r->Ok_0).1@;
                assert(Self::layout(m) + rest =~= seq![m.tag()] + (m.body() + rest));
            } else {
                assert forall|m: MessageModel, rest: Seq<u8>| Self::fits(m) implies input@
                    != #[trigger] (Self::layout(m) + rest) by {
                    if input@ == Self::layout(m) + rest {
                        assert(input@[0] == m.tag());
                        assert(tail@ =~= m.body() + rest);
                    }
                }
            }
        }
        r
    }
}

/// The ceiling for a payload whose first byte is known to be, or not known to be, the tag
/// of a single transaction.
pub open spec fn ceiling(first: Option<u8>) -> nat {
    if first == Some(0u8) {
        MAX_SINGLE_DECOMPRESSED as nat
    } else {
        MAX_BATCH_DECOMPRESSED as nat
    }
}

pub open spec fn too_many_text(kind: Seq<char>, count: nat, max: nat) -> Seq<char> {
    kind + " batch has "@ + decimal(count) + " entries, max "@ + decimal(max)
}

/// The number of entries of a signed batch.
pub open spec fn entry_count(batch: SignedBatchModel) -> nat {
    (((batch.1).1).1).len()
}

/// What a message of `len` bytes is refused for, if anything.
pub open spec fn limit_breach(m: MessageModel, len: nat) -> Option<Breach> {
    match m {
        MessageModel::Transaction(_) => if len > MAX_SINGLE_DECOMPRESSED {
            Some(Breach::TooLarge(MAX_SINGLE_DECOMPRESSED as nat))
        } else {
            None
        },
        MessageModel::TransactionBatch(txs) => if txs.len() > MAX_UNSIGNED_BATCH_TXS {
            Some(
                Breach::TooMany(
                    too_many_text("unsigned"@, txs.len(), MAX_UNSIGNED_BATCH_TXS as nat),
                ),
            )
        } else if len > MAX_BATCH_DECOMPRESSED {
            Some(Breach::TooLarge(MAX_BATCH_DECOMPRESSED as nat))
        } else {
            None
        },
        MessageModel::SignedBatch(batch) => if entry_count(batch) > MAX_BATCH_ENTRIES {
            Some(
                Breach::TooMany(
                    too_many_text("signed"@, entry_count(batch), MAX_BATCH_ENTRIES as nat),
                ),
            )
        } else if len > MAX_BATCH_DECOMPRESSED {
            Some(Breach::TooLarge(MAX_BATCH_DECOMPRESSED as nat))
        } else {
            None
        },
    }
}

/// The failure that tells of a broken limit.
pub open spec fn tells(breach: Breach, len: nat, e: TpuError) -> bool {
    match breach {
        Breach::TooLarge(max) => e matches TpuError::TransactionTooLarge { size, max_size } && size
            == len && max_size == max,
        Breach::TooMany(text) => e matches TpuError::InvalidBatch(s) && s@ == text,
    }
}

/// What is read off the bytes of a message: the message with their number, if they are
/// those of a message that breaks no limit.
pub open spec fn read_as(raw: Seq<u8>, r: Result<(TpuMessage, usize), TpuError>) -> bool {
    if exists|m: MessageModel| encodes::<TpuMessage>(raw, m) {
        let m = choose|m: MessageModel| encodes::<TpuMessage>(raw, m);
        match limit_breach(m, raw.len()) {
            None => r matches Ok((msg, len)) && msg.model() == m && len == raw.len(),
            Some(breach) => r matches Err(e) && tells(breach, raw.len(), e),
        }
    } else {
        r matches Err(TpuError::Deserialization(s)) && s@ == codec_error_text(
            misreading::<TpuMessage>(raw),
        )
    }
}

/// The ceiling under which the wire form of a message is opened.
pub open spec fn wire_ceiling(bytes: Seq<u8>) -> nat {
    ceiling(first_of(bytes))
}

/// What the wire form of a message is opened to. What was made by compressing the bytes of a
/// message is opened to these bytes, if they are within the ceiling for their first one.
pub open spec fn unsealed(bytes: Seq<u8>, r: Result<Vec<u8>, TpuError>) -> bool {
    &&& match opened(bytes, wire_ceiling(bytes)) {
        Some(raw) => r matches Ok(out) && out@ == raw,
        None => r matches Err(e) && tells_why(bytes, wire_ceiling(bytes), e),
    }
    &&& forall|data: Seq<u8>|
        data.len() > 0 && bytes == #[trigger] payload_of(data) ==> if data.len() <= ceiling(
            Some(data[0]),
        ) {
            r matches Ok(out) && out@ == data
        } else {
            r is Err
        }
}

/// What is read of a message in its wire form: it is opened, and its bytes are those of a
/// message that breaks no limit.
pub open spec fn received(bytes: Seq<u8>, r: Result<(TpuMessage, usize), TpuError>) -> bool {
    exists|raw: Result<Vec<u8>, TpuError>| #[trigger]
        unsealed(bytes, raw) && match raw {
            Ok(data) => read_as(data@, r),
            Err(e) => r == Err::<(TpuMessage, usize), TpuError>(e),
        }
}

/// A limit that a message breaks.
pub enum Breach {
    /// Longer than this.
    TooLarge(nat),
    /// Too many entries, as the message says.
    TooMany(Seq<char>),
}

fn too_many(kind: &str, count: usize, max: u64) -> (r: TpuError)
    ensures
        r matches TpuError::InvalidBatch(s) && s@ == too_many_text(kind@, count as nat, max as nat),
{
    let mut text: String = string(kind);
    push_str(&mut text, " batch has ");
    push_usize(&mut text, count);
    push_str(&mut text, " entries, max ");
    push_u64(&mut text, max);
    TpuError::InvalidBatch(text)
}

impl TpuMessage {
    /// The wire form of the message.
    pub fn serialize_to_bytes(&self) -> (r: Result<Vec<u8>, TpuError>)
        ensures
            if <TpuMessage as Codec>::fits(self.model()) {
                r matches Ok(out) && out@ == payload_of(<TpuMessage as Codec>::layout(self.model()))
            } else {
                r matches Err(TpuError::Serialization(s)) && s@ == codec_error_text(
                    CodecError::TooLong,
                )
            },
    {
        match to_vec(self) {
            Ok(raw) => compress(raw.as_slice()),
            Err(e) => Err(TpuError::Serialization(e.describe())),
        }
    }

    /// The message in its wire form, with the number of its bytes.
    ///
    /// The decompressed bound is derived from the message type, not from the compressed
    /// wire size. The first byte of a message is its tag: just enough is decompressed to
    /// read it, and then the whole under the ceiling for that tag. Where the tag cannot be
    /// read ahead, the ceiling for batches holds, which is large enough for any message.
    pub fn deserialize_from_bytes(bytes: &[u8]) -> (r: Result<(Self, usize), TpuError>)
        ensures
            received(bytes@, r),
    {
        let raw = Self::open_payload(bytes);
        let ghost was = raw;
        match raw {
            Ok(data) => {
                let r = Self::finish_deserialize(data.as_slice());
                assert(unsealed(bytes@, was) && read_as(data@, r));
                r
            },
            Err(e) => {
                assert(unsealed(bytes@, was));
                Err(e)
            },
        }
    }

    /// The message whose bytes these are, if it breaks no limit, with their number.
    pub fn finish_deserialize(raw: &[u8]) -> (r: Result<(Self, usize), TpuError>)
        ensures
            read_as(raw@, r),
    {
        let len: usize = raw.len();
        match from_slice::<TpuMessage>(raw) {
            Ok(msg) => {
                proof {
                    layout_is_injective::<TpuMessage>(
                        msg.model(),
                        choose|m: MessageModel| encodes::<TpuMessage>(raw@, m),
                    );
                }
                match msg.check_limits(len) {
                    Ok(()) => Ok((msg, len)),
                    Err(e) => Err(e),
                }
            },
            Err(e) => Err(TpuError::Deserialization(e.describe())),
        }
    }

    /// The bytes of a message, given its wire form.
    fn open_payload(bytes: &[u8]) -> (r: Result<Vec<u8>, TpuError>)
        ensures
            unsealed(bytes@, r),
    {
        let first: Option<u8> = peek(bytes);
        let max: usize = match first {
            Some(0) => MAX_SINGLE_DECOMPRESSED,
            _ => MAX_BATCH_DECOMPRESSED,
        };
        decompress(bytes, max)
    }

    /// Per-variant limits, once the message has been decoded from `decompressed_len` bytes.
    pub fn check_limits(&self, decompressed_len: usize) -> (r: Result<(), TpuError>)
        ensures
            match limit_breach(self.model(), decompressed_len as nat) {
                None => r is Ok,
                Some(breach) => r matches Err(e) && tells(breach, decompressed_len as nat, e),
            },
    {
        match self {
            TpuMessage::Transaction(_) => {
                if decompressed_len > MAX_SINGLE_DECOMPRESSED {
                    return Err(
                        TpuError::TransactionTooLarge {
                            size: decompressed_len,
                            max_size: MAX_SINGLE_DECOMPRESSED,
                        },
                    );
                }
            },
            TpuMessage::TransactionBatch(txs) => {
                if txs.len() > MAX_UNSIGNED_BATCH_TXS as usize {
                    return Err(too_many("unsigned", txs.len(), MAX_UNSIGNED_BATCH_TXS));
                }
                if decompressed_len > MAX_BATCH_DECOMPRESSED {
                    return Err(
                        TpuError::TransactionTooLarge {
                            size: decompressed_len,
                            max_size: MAX_BATCH_DECOMPRESSED,
                        },
                    );
                }
            },
            TpuMessage::SignedBatch(batch) => {
                if batch.entries.len() > MAX_BATCH_ENTRIES as usize {
                    return Err(too_many("signed", batch.entries.len(), MAX_BATCH_ENTRIES));
                }
                if decompressed_len > MAX_BATCH_DECOMPRESSED {
                    return Err(
                        TpuError::TransactionTooLarge {
                            size: decompressed_len,
                            max_size: MAX_BATCH_DECOMPRESSED,
                        },
                    );
                }
            },
        }
        Ok(())
    }

    /// The transactions of a message, in order. Those of a signed batch are what
    /// `to_transactions` makes of it.
    pub open spec fn has_transactions<T: FnOnce(&SignedTransactionBatch) -> Vec<Transaction>>(
        self,
        to_transactions: T,
        list: Vec<Transaction>,
    ) -> bool {
        match self {
            TpuMessage::Transaction(tx) => list@ == seq![*tx],
            TpuMessage::TransactionBatch(txs) => list@ == txs@,
            TpuMessage::SignedBatch(batch) => to_transactions.ensures((&*batch,), list),
        }
    }

    /// Consume this message and return the contained transactions. `to_transactions` makes
    /// those of a signed batch.
    pub fn into_transactions<T: FnOnce(&SignedTransactionBatch) -> Vec<Transaction>>(
        self,
        to_transactions: T,
    ) -> (r: Vec<Transaction>)
        requires
            self matches TpuMessage::SignedBatch(batch) ==> to_transactions.requires((&*batch,)),
        ensures
            self.has_transactions(to_transactions, r),
    {
        match self {
            TpuMessage::Transaction(tx) => {
                let mut out: Vec<Transaction> = Vec::new();
                let one: Transaction = *tx;
                out.push(one);
                assert(out@ =~= seq![one]);
                out
            },
            TpuMessage::TransactionBatch(txs) => txs,
            TpuMessage::SignedBatch(batch) => to_transactions(&*batch),
        }
    }
}

/// A message that arrives in its own wire form comes back, with the number of its bytes, if
/// it breaks no limit; any other is refused, however small its wire form is.
pub proof fn message_comes_back(m: MessageModel, r: Result<(TpuMessage, usize), TpuError>)
    requires
        <TpuMessage as Codec>::fits(m),
        received(payload_of(<TpuMessage as Codec>::layout(m)), r),
    ensures
        match limit_breach(m, <TpuMessage as Codec>::layout(m).len()) {
            None => r matches Ok((msg, len)) && msg.model() == m && len
                == <TpuMessage as Codec>::layout(m).len(),
            Some(_) => r is Err,
        },
{
    let raw = <TpuMessage as Codec>::layout(m);
    assert(raw[0] == m.tag());
    assert(encodes::<TpuMessage>(raw, m));
    layout_is_injective::<TpuMessage>(
        m,
        choose|x: MessageModel| encodes::<TpuMessage>(raw, x),
    );
}

/// What a message may hold: a single transaction in up to 65536 bytes, and up to 64 transactions
/// or signed entries in up to four mebibytes. A message in its own wire form comes back exactly
/// if it is within these bounds.
pub proof fn messages_within_bounds_come_back(
    m: MessageModel,
    r: Result<(TpuMessage, usize), TpuError>,
)
    requires
        <TpuMessage as Codec>::fits(m),
        received(payload_of(<TpuMessage as Codec>::layout(m)), r),
    ensures
        ({
            let len = <TpuMessage as Codec>::layout(m).len();
            &&& r is Ok <==> match m {
                MessageModel::Transaction(_) => len <= 65536,
                MessageModel::TransactionBatch(txs) => txs.len() <= 64 && len <= 4_194_304,
                MessageModel::SignedBatch(batch) => batch.1.1.1.len() <= 64 && len <= 4_194_304,
            }
            &&& r matches Ok((msg, n)) ==> msg.model() == m && n == len
        }),
{
    message_comes_back(m, r);
}

/// A message begins with the number of its kind: one transaction, some, or a signed batch. What it
/// holds follows.
pub proof fn messages_are_numbered(x: TpuMessage)
    ensures
        TpuMessage::layout(x.model()) == match x {
            TpuMessage::Transaction(tx) => seq![0u8] + <Transaction as Codec>::layout(
                (*tx).model(),
            ),
            TpuMessage::TransactionBatch(txs) => seq![1u8] + <Vec<Transaction> as Codec>::layout(
                txs.model(),
            ),
            TpuMessage::SignedBatch(batch) => seq![2u8]
                + <SignedTransactionBatch as Codec>::layout((*batch).model()),
        },
{
}

} // verus!
