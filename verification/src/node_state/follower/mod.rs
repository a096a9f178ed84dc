//! The follower's side of the replication.
//!
//! A follower is idle until its leader sends entries or a snapshot. While
//! it persists either, it is in the state `Append` or `Snapshot`, and goes
//! back to idle when that work has ended.
use vstd::prelude::*;
use crate::log::LogPosition;
use crate::message::MessageHeader;

pub mod append;
pub mod idle;
pub mod snapshot;

pub use self::append::FollowerAppend;
pub use self::idle::FollowerIdle;
pub use self::snapshot::FollowerSnapshot;

verus! {

/// An answer to entries sent by a leader, for the driver to send.
#[derive(Debug)]
pub struct Reply {
    /// The header of the request that is answered.
    pub to: MessageHeader,
    /// The tail of the local log to report.
    pub log_tail: LogPosition,
    /// Whether to report that the node is busy.
    pub busy: bool,
}

/// The states of a follower.
#[derive(Debug)]
pub enum Follower {
    /// Waits for a message of the leader.
    Idle(FollowerIdle),
    /// Persists entries that the leader sent.
    Append(FollowerAppend),
    /// Persists a snapshot that the leader sent.
    Snapshot(FollowerSnapshot),
}

/// What the driver of a follower has to do after a step.
#[derive(Debug)]
pub enum FollowerStep {
    /// Nothing. The follower stays in its state.
    Stay,
    /// Send the reply. The follower stays in its state.
    Reply(Reply),
    /// Enter the state `Append`; before that, begin to persist the entries
    /// of its message where it asks for that.
    Append(FollowerAppend),
    /// Begin to persist its snapshot, and enter the state `Snapshot`.
    Snapshot(FollowerSnapshot),
    /// Send the reply, and enter the state `Idle`.
    Done(Reply),
    /// Enter the state `Idle`.
    Idle,
}

/// Whether two headers say the same.
pub open spec fn same_header(a: MessageHeader, b: MessageHeader) -> bool {
    &&& a.sender@ == b.sender@
    &&& a.destination@ == b.destination@
    &&& a.seq_no == b.seq_no
    &&& a.term == b.term
}

} // verus!
