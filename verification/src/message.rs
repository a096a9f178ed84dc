//! The messages that the nodes of a cluster exchange.
use vstd::prelude::*;
use crate::election::Term;
use crate::log::LogIndex;
use crate::log::LogPosition;
use crate::log::LogPrefix;
use crate::log::LogSuffix;
use crate::node::NodeId;

verus! {

/// The number of a message from a leader. A reply carries the number of
/// the request that it answers.
#[derive(Debug, Clone, Copy, PartialEq, Eq, Hash, PartialOrd, Ord, Structural)]
pub struct SequenceNumber(pub u64);

impl SequenceNumber {
    /// The sequence number with the given value.
    pub fn new(num: u64) -> (r: Self)
        ensures
            r == SequenceNumber(num),
    {
        SequenceNumber(num)
    }

    /// The value of the sequence number.
    pub fn as_u64(self) -> (r: u64)
        ensures
            r == self.0,
    {
        self.0
    }
}

/// What every message carries.
#[derive(Debug)]
pub struct MessageHeader {
    /// The node that sent the message.
    pub sender: NodeId,
    /// The node that the message is for.
    pub destination: NodeId,
    /// The number of the message.
    pub seq_no: SequenceNumber,
    /// The term of the sender.
    pub term: Term,
}

impl Clone for MessageHeader {
    fn clone(&self) -> (r: Self)
        ensures
            r.sender@ == self.sender@,
            r.destination@ == self.destination@,
            r.seq_no == self.seq_no,
            r.term == self.term,
    {
        MessageHeader {
            sender: self.sender.clone(),
            destination: self.destination.clone(),
            seq_no: self.seq_no,
            term: self.term,
        }
    }
}

/// A candidate asks for a vote.
#[derive(Debug)]
pub struct RequestVoteCall {
    pub header: MessageHeader,
    /// The tail of the candidate's log.
    pub log_tail: LogPosition,
}

/// The answer to a request for a vote.
#[derive(Debug)]
pub struct RequestVoteReply {
    pub header: MessageHeader,
    /// Whether the sender voted for the candidate.
    pub voted: bool,
}

/// A leader sends entries to append, or none as a heartbeat.
#[derive(Debug)]
pub struct AppendEntriesCall {
    pub header: MessageHeader,
    /// The index up to which the leader's log is committed.
    pub committed_log_tail: LogIndex,
    /// The entries to append.
    pub suffix: LogSuffix,
}

/// The answer to entries sent by a leader.
#[derive(Debug)]
pub struct AppendEntriesReply {
    pub header: MessageHeader,
    /// The tail of the follower's log.
    pub log_tail: LogPosition,
    /// Whether the follower was busy and did not look at the entries.
    pub busy: bool,
}

/// A leader sends a snapshot to install.
#[derive(Debug)]
pub struct InstallSnapshotCast {
    pub header: MessageHeader,
    /// The snapshot.
    pub prefix: LogPrefix,
}

/// A message between two nodes.
#[derive(Debug)]
pub enum Message {
    RequestVoteCall(RequestVoteCall),
    RequestVoteReply(RequestVoteReply),
    AppendEntriesCall(AppendEntriesCall),
    AppendEntriesReply(AppendEntriesReply),
    InstallSnapshotCast(InstallSnapshotCast),
}

impl Message {
    /// The header of the message.
    pub fn header(&self) -> (r: &MessageHeader)
        ensures
            *r == match *self {
                Message::RequestVoteCall(m) => m.header,
                Message::RequestVoteReply(m) => m.header,
                Message::AppendEntriesCall(m) => m.header,
                Message::AppendEntriesReply(m) => m.header,
                Message::InstallSnapshotCast(m) => m.header,
            },
    {
        match self {
            Message::RequestVoteCall(m) => &m.header,
            Message::RequestVoteReply(m) => &m.header,
            Message::AppendEntriesCall(m) => &m.header,
            Message::AppendEntriesReply(m) => &m.header,
            Message::InstallSnapshotCast(m) => &m.header,
        }
    }
}

} // verus!
