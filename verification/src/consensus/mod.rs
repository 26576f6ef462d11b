//! Agreement inside one shard group: who votes, who leads, what is committed.

pub mod campaign;
pub mod config;
pub mod election;
pub mod failover;
pub mod lease;
pub mod progress;
pub mod read_index;
pub mod reconfigure;
pub mod recovery;
pub mod state;
pub mod transfer;
