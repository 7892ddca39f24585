//! Failures of transaction intake and forwarding.

use crate::net::{ip_text, push_ip, Ip};
use crate::text::{decimal, push_str, push_usize, string};
use vstd::prelude::*;

verus! {

/// Which limit a request ran into.
#[derive(Clone, Copy, Debug, PartialEq, Eq)]
pub enum LimitReason {
    /// No further address can be kept count of.
    AtCapacity,
    /// The address has sent too much in this second.
    PerIp(Ip),
    /// All addresses together have sent too much in this second.
    Global,
    /// The address has too many connections.
    Connections(Ip),
}

#[derive(Clone, Debug, PartialEq, Eq)]
pub enum TpuError {
    Io(String),
    QuicConnection(String),
    QuicStream(String),
    Serialization(String),
    Deserialization(String),
    RateLimited { reason: LimitReason },
    TransactionTooLarge { size: usize, max_size: usize },
    InvalidTransaction(String),
    Tls(String),
    NoLeader,
    ChannelSend(String),
    ConnectionCache(String),
    Compression(String),
    Decompression(String),
    InvalidBatch(String),
}

pub open spec fn limit_text(reason: LimitReason) -> Seq<char> {
    match reason {
        LimitReason::AtCapacity => "rate limiter at capacity"@,
        LimitReason::PerIp(ip) => "per-IP limit exceeded: "@ + ip_text(ip),
        LimitReason::Global => "global rate limit exceeded"@,
        LimitReason::Connections(ip) => "connection limit exceeded: "@ + ip_text(ip),
    }
}

pub open spec fn tpu_error_text(e: TpuError) -> Seq<char> {
    match e {
        TpuError::Io(s) => "IO error: "@ + s@,
        TpuError::QuicConnection(s) => "QUIC connection error: "@ + s@,
        TpuError::QuicStream(s) => "QUIC stream error: "@ + s@,
        TpuError::Serialization(s) => "serialization error: "@ + s@,
        TpuError::Deserialization(s) => "deserialization error: "@ + s@,
        TpuError::RateLimited { reason } => "rate limited: "@ + limit_text(reason),
        TpuError::TransactionTooLarge { size, max_size } => "transaction too large: "@ + decimal(
            size as nat,
        ) + " bytes (max "@ + decimal(max_size as nat) + ")"@,
        TpuError::InvalidTransaction(s) => "invalid transaction: "@ + s@,
        TpuError::Tls(s) => "TLS error: "@ + s@,
        TpuError::NoLeader => "no leader available for forwarding"@,
        TpuError::ChannelSend(s) => "channel send error: "@ + s@,
        TpuError::ConnectionCache(s) => "connection cache error: "@ + s@,
        TpuError::Compression(s) => "compression error: "@ + s@,
        TpuError::Decompression(s) => "decompression error: "@ + s@,
        TpuError::InvalidBatch(s) => "invalid batch: "@ + s@,
    }
}

impl LimitReason {
    /// The limit as text, with the address where it is that of one.
    pub fn describe(&self) -> (r: String)
        ensures
            r@ == limit_text(*self),
    {
        match self {
            LimitReason::AtCapacity => string("rate limiter at capacity"),
            LimitReason::PerIp(ip) => {
                let mut out: String = string("per-IP limit exceeded: ");
                push_ip(&mut out, *ip);
                out
            },
            LimitReason::Global => string("global rate limit exceeded"),
            LimitReason::Connections(ip) => {
                let mut out: String = string("connection limit exceeded: ");
                push_ip(&mut out, *ip);
                out
            },
        }
    }
}

fn labelled(label: &str, s: &str) -> (r: String)
    ensures
        r@ == label@ + s@,
{
    let mut out: String = string(label);
    push_str(&mut out, s);
    out
}

impl TpuError {
    /// The failure as text.
    pub fn describe(&self) -> (r: String)
        ensures
            r@ == tpu_error_text(*self),
    {
        match self {
            TpuError::Io(s) => labelled("IO error: ", s.as_str()),
            TpuError::QuicConnection(s) => labelled("QUIC connection error: ", s.as_str()),
            TpuError::QuicStream(s) => labelled("QUIC stream error: ", s.as_str()),
            TpuError::Serialization(s) => labelled("serialization error: ", s.as_str()),
            TpuError::Deserialization(s) => labelled("deserialization error: ", s.as_str()),
            TpuError::RateLimited { reason } => labelled(
                "rate limited: ",
                reason.describe().as_str(),
            ),
            TpuError::TransactionTooLarge { size, max_size } => {
                let mut out: String = string("transaction too large: ");
                push_usize(&mut out, *size);
                push_str(&mut out, " bytes (max ");
                push_usize(&mut out, *max_size);
                push_str(&mut out, ")");
                out
            },
            TpuError::InvalidTransaction(s) => labelled("invalid transaction: ", s.as_str()),
            TpuError::Tls(s) => labelled("TLS error: ", s.as_str()),
            TpuError::NoLeader => string("no leader available for forwarding"),
            TpuError::ChannelSend(s) => labelled("channel send error: ", s.as_str()),
            TpuError::ConnectionCache(s) => labelled("connection cache error: ", s.as_str()),
            TpuError::Compression(s) => labelled("compression error: ", s.as_str()),
            TpuError::Decompression(s) => labelled("decompression error: ", s.as_str()),
            TpuError::InvalidBatch(s) => labelled("invalid batch: ", s.as_str()),
        }
    }
}

} // verus!
