//! Replica logic for a Raft-replicated key/value store and a transactional
//! list store layered on a linearizable key/value service, as run by nodes
//! that exchange line-delimited messages with a test harness.

pub mod error;
pub mod text;
pub mod log;
pub mod node;
pub mod kv;
pub mod raft_state;
pub mod election;
pub mod store;
pub mod txn;
pub mod counters;
pub mod datomic;
