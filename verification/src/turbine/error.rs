//! Failures of block propagation.

use crate::storage::error::{storage_error_text, StorageError};
use crate::text::{decimal, push_str, push_u64, push_usize, string};
use vstd::prelude::*;

verus! {

#[derive(Clone, Debug, PartialEq, Eq)]
pub enum TurbineError {
    Io(String),
    Serialization(String),
    Deserialization(String),
    ShredSignatureVerification { slot: u64, index: u32 },
    ShredTooLarge { size: usize, max_size: usize },
    BlockSerialization(String),
    ErasureCoding(String),
    InsufficientShreds { have: usize, need: usize },
    Deshredding(String),
    SlotAlreadyComplete { slot: u64 },
    Storage(StorageError),
    Gossip(String),
    ChannelSend(String),
    Compression(String),
    Decompression(String),
    MerkleProofVerification { slot: u64, index: u32 },
    MissingBatchHeader { slot: u64 },
}

pub open spec fn turbine_error_text(e: TurbineError) -> Seq<char> {
    match e {
        TurbineError::Io(s) => "IO error: "@ + s@,
        TurbineError::Serialization(s) => "serialization error: "@ + s@,
        TurbineError::Deserialization(s) => "deserialization error: "@ + s@,
        TurbineError::ShredSignatureVerification { slot, index } =>
        "signature verification failed for shred slot="@ + decimal(slot as nat) + " index="@
            + decimal(index as nat),
        TurbineError::ShredTooLarge { size, max_size } => "shred too large: "@ + decimal(
            size as nat,
        ) + " bytes (max "@ + decimal(max_size as nat) + ")"@,
        TurbineError::BlockSerialization(s) => "block serialization failed: "@ + s@,
        TurbineError::ErasureCoding(s) => "erasure coding error: "@ + s@,
        TurbineError::InsufficientShreds { have, need } =>
        "erasure recovery failed: insufficient shreds ("@ + decimal(have as nat) + "/"@ + decimal(
            need as nat,
        ) + ")"@,
        TurbineError::Deshredding(s) => "deshredding failed: "@ + s@,
        TurbineError::SlotAlreadyComplete { slot } => "slot "@ + decimal(slot as nat)
            + " already complete"@,
        TurbineError::Storage(s) => "storage error: "@ + storage_error_text(s),
        TurbineError::Gossip(s) => "gossip error: "@ + s@,
        TurbineError::ChannelSend(s) => "channel send error: "@ + s@,
        TurbineError::Compression(s) => "compression error: "@ + s@,
        TurbineError::Decompression(s) => "decompression error: "@ + s@,
        TurbineError::MerkleProofVerification { slot, index } =>
        "merkle proof verification failed for shred slot="@ + decimal(slot as nat) + " index="@
            + decimal(index as nat),
        TurbineError::MissingBatchHeader { slot } => "missing shred batch header for slot "@
            + decimal(slot as nat),
    }
}

fn labelled(label: &str, s: &str) -> (r: String)
    ensures
        r@ == label@ + s@,
{
    let mut out: String = string(label);
    push_str(&mut out, s);
    out
}

fn shred_at(label: &str, slot: u64, index: u32) -> (r: String)
    ensures
        r@ == label@ + decimal(slot as nat) + " index="@ + decimal(index as nat),
{
    let mut out: String = string(label);
    push_u64(&mut out, slot);
    push_str(&mut out, " index=");
    push_u64(&mut out, index as u64);
    out
}

impl TurbineError {
    /// The failure as text.
    pub fn describe(&self) -> (r: String)
        ensures
            r@ == turbine_error_text(*self),
    {
        match self {
            TurbineError::Io(s) => labelled("IO error: ", s.as_str()),
            TurbineError::Serialization(s) => labelled("serialization error: ", s.as_str()),
            TurbineError::Deserialization(s) => labelled("deserialization error: ", s.as_str()),
            TurbineError::ShredSignatureVerification { slot, index } => shred_at(
                "signature verification failed for shred slot=",
                *slot,
                *index,
            ),
            TurbineError::ShredTooLarge { size, max_size } => {
                let mut out: String = string("shred too large: ");
                push_usize(&mut out, *size);
                push_str(&mut out, " bytes (max ");
                push_usize(&mut out, *max_size);
                push_str(&mut out, ")");
                out
            },
            TurbineError::BlockSerialization(s) => labelled(
                "block serialization failed: ",
                s.as_str(),
            ),
            TurbineError::ErasureCoding(s) => labelled("erasure coding error: ", s.as_str()),
            TurbineError::InsufficientShreds { have, need } => {
                let mut out: String = string("erasure recovery failed: insufficient shreds (");
                push_usize(&mut out, *have);
                push_str(&mut out, "/");
                push_usize(&mut out, *need);
                push_str(&mut out, ")");
                out
            },
            TurbineError::Deshredding(s) => labelled("deshredding failed: ", s.as_str()),
            TurbineError::SlotAlreadyComplete { slot } => {
                let mut out: String = string("slot ");
                push_u64(&mut out, *slot);
                push_str(&mut out, " already complete");
                out
            },
            TurbineError::Storage(s) => labelled("storage error: ", s.describe().as_str()),
            TurbineError::Gossip(s) => labelled("gossip error: ", s.as_str()),
            TurbineError::ChannelSend(s) => labelled("channel send error: ", s.as_str()),
            TurbineError::Compression(s) => labelled("compression error: ", s.as_str()),
            TurbineError::Decompression(s) => labelled("decompression error: ", s.as_str()),
            TurbineError::MerkleProofVerification { slot, index } => shred_at(
                "merkle proof verification failed for shred slot=",
                *slot,
                *index,
            ),
            TurbineError::MissingBatchHeader { slot } => {
                let mut out: String = string("missing shred batch header for slot ");
                push_u64(&mut out, *slot);
                out
            },
        }
    }
}

} // verus!
