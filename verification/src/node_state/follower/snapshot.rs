//! The follower while it installs a snapshot that its leader sent.
use vstd::prelude::*;
use crate::error::ErrorKind;
use crate::log::LogHistory;
use crate::log::LogPrefix;
use crate::message::Message;
use crate::node_state::follower::FollowerStep;
use crate::node_state::follower::Reply;

verus! {

/// The follower while the snapshot that its leader sent is persisted.
#[derive(Debug)]
pub struct FollowerSnapshot {
    prefix: LogPrefix,
}

impl FollowerSnapshot {
    /// The snapshot that is installed.
    pub closed spec fn spec_prefix(&self) -> LogPrefix {
        self.prefix
    }

    /// Begins to install `prefix`.
    pub fn new(prefix: LogPrefix) -> (r: Self)
        ensures
            r.spec_prefix() == prefix,
    {
        FollowerSnapshot { prefix }
    }

    /// The snapshot that is installed.
    pub fn prefix(&self) -> (r: &LogPrefix)
        ensures
            *r == self.spec_prefix(),
    {
        &self.prefix
    }

    /// Takes a message while the snapshot is installed: entries of the
    /// leader are answered with the local tail and the word busy,
    /// everything else is dropped.
    pub fn handle_message(&mut self, log: &LogHistory, message: Message) -> (r: FollowerStep)
        ensures
            *final(self) == *old(self),
            match message {
                Message::AppendEntriesCall(m) => (r matches FollowerStep::Reply(reply) && reply.to
                    == m.header && reply.log_tail == log@.appended_tail && reply.busy),
                _ => r is Stay,
            },
    {
        match message {
            Message::AppendEntriesCall(m) => FollowerStep::Reply(
                Reply { to: m.header, log_tail: log.tail(), busy: true },
            ),
            _ => FollowerStep::Stay,
        }
    }

    /// Goes on with the installation, where `ready` says whether the
    /// snapshot is persisted.
    ///
    /// Until it is, nothing happens. Then the snapshot is recorded as
    /// installed, with its tail and its configuration, and the follower
    /// becomes idle; where the history refuses that, the error is
    /// returned and nothing has changed.
    pub fn run_once(&mut self, log: &mut LogHistory, ready: bool) -> (r: Result<
        FollowerStep,
        ErrorKind,
    >)
        requires
            old(log).wf(),
        ensures
            *final(self) == *old(self),
            final(log).wf(),
            final(log)@.committed_tail.index.0 >= old(log)@.committed_tail.index.0,
            final(log)@.consumed_tail == old(log)@.consumed_tail,
            !ready ==> final(log)@ == old(log)@ && (r matches Ok(FollowerStep::Stay)),
            ready ==> {
                let made = old(log)@.record_snapshot_installed(
                    old(self).spec_prefix().tail,
                    old(self).spec_prefix().config@,
                );
                &&& final(log)@ == made.0
                &&& match r {
                    Ok(step) => made.1 is Ok && step is Idle,
                    Err(e) => made.1 == Err::<(), ErrorKind>(e),
                }
            },
    {
        if !ready {
            return Ok(FollowerStep::Stay);
        }
        match log.record_snapshot_installed(self.prefix.tail, self.prefix.config.clone()) {
            Ok(()) => Ok(FollowerStep::Idle),
            Err(e) => Err(e),
        }
    }
}

} // verus!
