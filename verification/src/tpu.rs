//! Taking transactions in, and forwarding them to the leader.

pub mod compression;
pub mod connection_cache;
pub mod error;
pub mod forwarder;
pub mod protocol;
pub mod rate_limiter;
pub mod tx_validator;
pub mod quic_server;
