//! The decision core of DewDB, a replicated and sharded JSON document store.
//!
//! Every rule that a node applies to its own state, to a peer's message or to a client's document
//! is a function of this crate, with its behaviour stated in its contract and proved.
#![allow(unused_imports)]

pub mod boot;
pub mod cluster;
pub mod config;
pub mod consensus;
pub mod endpoint;
pub mod escape;
pub mod json;
pub mod key_set;
pub mod lists;
pub mod logging;
pub mod maintenance;
pub mod metrics;
pub mod model;
pub mod name_map;
pub mod number;
pub mod ring;
pub mod sorting;
pub mod text;
pub mod wire;
