//! A verified core for a small proof-of-stake ledger node.

pub mod bytes;
pub mod codec;
pub mod concurrent;
pub mod digest;
pub mod ledger;
pub mod merkle;
pub mod net;
pub mod ordered;
pub mod storage;
pub mod system_program;
pub mod sysvar_program;
pub mod text;
pub mod token_program;
pub mod tpu;
pub mod turbine;
pub mod zstd_frames;
