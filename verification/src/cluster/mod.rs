//! The cluster as a whole: topology, routing, movement of data between groups.

pub mod catalog;
pub mod changestream;
pub mod fanout;
pub mod indexes;
pub mod metadata;
pub mod migration;
pub mod movement;
pub mod ownership;
pub mod probe;
pub mod rebalance;
pub mod router;
pub mod scan;
