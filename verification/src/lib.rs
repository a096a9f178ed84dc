//! The core of a Raft replicated log: cluster configurations with joint
//! consensus, the local log and its history, and the decisions that a
//! follower and a leader take on the messages they exchange.
//!
//! Everything here is a plain function of its arguments: sending messages,
//! persisting logs and waiting for timers are left to the caller, which
//! performs the actions that these functions return.
pub mod cluster;
pub mod election;
pub mod error;
pub mod log;
pub mod members;
pub mod message;
pub mod node;
pub mod node_state;
pub mod quorum;
pub mod storage;

pub use error::ErrorKind;
