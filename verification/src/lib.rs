//! Verified core of a durable message broker.
use vstd::prelude::*;

pub mod auth;
pub mod bookkeeping;
pub mod cache;
pub mod catalog;
pub mod clients;
pub mod clock;
pub mod config;
pub mod consumers;
pub mod db;
pub mod delivery;
pub mod grpc_conn;
pub mod intake;
pub mod json;
pub mod lifecycle;
pub mod messages;
pub mod model;
pub mod mqtt;
pub mod number;
pub mod order;
pub mod page;
pub mod paging;
pub mod queue;
pub mod ranking;
pub mod retention;
pub mod service;
pub mod shard;
pub mod snapshot;
pub mod startup;
pub mod status;
pub mod subscribers;
pub mod subscription;
pub mod table;
pub mod text;
pub mod topic;
pub mod upkeep;
pub mod writer;

verus! {

} // verus!
