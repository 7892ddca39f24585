//! What the ledger store holds, and what every operation does to it.

pub mod account_index;
pub mod bank;
pub mod block;
pub mod cf;
pub mod database;
pub mod error;
pub mod keys;
pub mod memory;
pub mod owner_index;
pub mod pruning;
pub mod shred;
pub mod slashing;
pub mod slot_meta;
pub mod snapshot;
pub mod snapshot_archive;
pub mod store;
pub mod sysvar;
pub mod transaction;
pub mod write_batch;
