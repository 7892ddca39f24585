//! Block propagation: cutting blocks into shreds, spreading them over a tree of nodes,
//! repairing what is lost, and putting blocks together again.

pub mod broadcast_stage;
pub mod compression;
pub mod deshredder;
pub mod erasure;
pub mod error;
pub mod merkle_shred;
pub mod protocol;
pub mod repair_service;
pub mod retransmit_stage;
pub mod shred_collector;
pub mod shred_receiver;
pub mod shredder;
pub mod turbine_tree;
