//! Irokle: a signed Merkle-DAG operation log for invite-only topics.
#![allow(unused_imports)]

pub mod ids;
pub mod idset;
pub mod idmap;
pub mod frame;
pub mod codec;
pub mod crypto;
pub mod error;
pub mod clock;
pub mod topic;
pub mod op;
pub mod eviction;
pub mod storage;
pub mod order;
pub mod oplog;
pub mod history;
pub mod reducer;
pub mod runtime;
pub mod node;
pub mod staging;
pub mod resync;
pub mod transport;
pub mod accept;
pub mod sweep;
pub mod paging;
pub mod session;
pub mod batch;
pub mod status;
pub mod manual;
pub mod followup;
pub mod round;
