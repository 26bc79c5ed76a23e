//! A replicated configuration store: Raft consensus, a replicated log with
//! compaction, and a deterministic configuration state machine.

pub mod audit;
pub mod cluster;
pub mod command;
pub mod log;
pub mod manager;
pub mod matching;
pub mod node;
pub mod store;
pub mod types;
pub mod util;
