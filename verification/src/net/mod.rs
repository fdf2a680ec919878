//! Replication between peers: pulls only, over connections that prove the peer's key.

pub mod engine;
pub mod laws;
pub mod merge;
pub mod serve;
pub mod wire;

pub use engine::SyncEngine;
pub use wire::{HelloResponse, NsHead, Rec, Records, SyncRequest, SyncResponse};
