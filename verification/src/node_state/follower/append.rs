//! The follower while it appends entries to its local log.
use vstd::prelude::*;
use crate::error::ErrorKind;
use crate::log::LogHistory;
use crate::log::LogIndex;
use crate::log::LogPosition;
use crate::log::LogSuffixView;
use crate::log::history::LogHistoryView;
use crate::log::history::later_of;
use crate::message::AppendEntriesCall;
use crate::message::Message;
use crate::node_state::follower::FollowerStep;
use crate::node_state::follower::Reply;
use crate::node_state::follower::same_header;

verus! {

/// The greater of two indices.
pub open spec fn index_max(a: LogIndex, b: LogIndex) -> LogIndex {
    if a.0 < b.0 {
        b
    } else {
        a
    }
}

/// The smaller of two indices.
pub open spec fn index_min(a: LogIndex, b: LogIndex) -> LogIndex {
    if b.0 < a.0 {
        b
    } else {
        a
    }
}

/// The committed index to record for entries that end at `suffix_tail`,
/// where the leader reports `reported` and the local log is committed up
/// to `local`: what the leader reports, but not beyond the entries, and not
/// before what is committed already.
pub open spec fn credited(reported: LogIndex, suffix_tail: LogIndex, local: LogIndex) -> LogIndex {
    index_max(index_min(reported, suffix_tail), local)
}

/// The history once an append is completed, and how that ends: where the
/// tail to reach is the tail of `suffix`, the entries are recorded as
/// appended; then `committed` is recorded as committed. The first of the
/// two that fails ends it.
pub open spec fn completed(
    h: LogHistoryView,
    suffix: LogSuffixView,
    new_log_tail: LogPosition,
    committed: LogIndex,
) -> (LogHistoryView, Result<(), ErrorKind>) {
    let appended = if new_log_tail == suffix.tail() {
        h.record_appended(suffix)
    } else {
        (h, Ok(()))
    };
    if appended.1 is Err {
        appended
    } else {
        appended.0.record_committed(committed)
    }
}

/// The follower while it appends the entries of a message to its local
/// log.
#[derive(Debug)]
pub struct FollowerAppend {
    save: bool,
    new_log_tail: LogPosition,
    message: AppendEntriesCall,
}

impl FollowerAppend {
    /// Whether the entries of the message have to be persisted.
    pub closed spec fn spec_saves(&self) -> bool {
        self.save
    }

    /// The tail that the local log is meant to have after the append.
    pub closed spec fn spec_new_log_tail(&self) -> LogPosition {
        self.new_log_tail
    }

    /// The message, with its committed index adjusted.
    pub closed spec fn spec_message(&self) -> AppendEntriesCall {
        self.message
    }

    /// Whether the entries of the message fit the machine.
    pub open spec fn wf(&self) -> bool {
        self.spec_message().suffix@.fits()
    }

    /// Begins the append of the entries of `message`, which join the local
    /// log at their head.
    ///
    /// The tail to reach is the later of the tail of the entries and the
    /// local tail. The committed index of the message is cut down to the
    /// tail of the entries and raised to the local committed index. The
    /// entries have to be persisted unless the local log reaches as far
    /// already.
    pub fn new(log: &LogHistory, message: AppendEntriesCall) -> (r: Self)
        requires
            message.suffix@.fits(),
        ensures
            r.wf(),
            r.spec_message().header == message.header,
            r.spec_message().suffix == message.suffix,
            r.spec_message().committed_log_tail == credited(
                message.committed_log_tail,
                message.suffix@.tail().index,
                log@.committed_tail.index,
            ),
            r.spec_new_log_tail() == later_of(message.suffix@.tail(), log@.appended_tail),
            r.spec_saves() == (log@.appended_tail.index.0 < message.suffix@.tail().index.0),
    {
        let mut message = message;
        let suffix_tail = message.suffix.tail();
        let mut new_log_tail = suffix_tail;
        if new_log_tail.index.as_u64() < log.tail().index.as_u64() {
            new_log_tail = log.tail();
        }
        if suffix_tail.index.as_u64() < message.committed_log_tail.as_u64() {
            message.committed_log_tail = suffix_tail.index;
        }
        if message.committed_log_tail.as_u64() < log.committed_tail().index.as_u64() {
            message.committed_log_tail = log.committed_tail().index;
        }
        let save = !(new_log_tail.index.as_u64() == log.tail().index.as_u64());
        FollowerAppend { save, new_log_tail, message }
    }

    /// Whether the entries of the message have to be persisted before the
    /// append is completed.
    pub fn saves(&self) -> (r: bool)
        ensures
            r == self.spec_saves(),
    {
        self.save
    }

    /// The message whose entries are appended.
    pub fn message(&self) -> (r: &AppendEntriesCall)
        ensures
            *r == self.spec_message(),
    {
        &self.message
    }

    /// Takes a message while the append is under way: entries of the
    /// leader are answered with the local tail and the word busy,
    /// everything else is dropped.
    pub fn handle_message(&mut self, log: &LogHistory, message: Message) -> (r: FollowerStep)
        ensures
            *final(self) == *old(self),
            match message {
                Message::AppendEntriesCall(m) => (r matches FollowerStep::Reply(reply) && reply.to
                    == m.header && reply.log_tail == log@.appended_tail && reply.busy),
                _ => r is Stay,
            },
    {
        match message {
            Message::AppendEntriesCall(m) => FollowerStep::Reply(
                Reply { to: m.header, log_tail: log.tail(), busy: true },
            ),
            _ => FollowerStep::Stay,
        }
    }

    /// Goes on with the append, where `ready` says whether the entries are
    /// persisted, or did not have to be.
    ///
    /// Until they are, nothing happens. Then the entries are recorded as
    /// appended, unless the tail to reach is not theirs, and the committed
    /// index of the message is recorded as committed. Where both succeed
    /// the tail of the entries is reported to the leader and the follower
    /// becomes idle. Else the error is returned; what the history had
    /// recorded by then stays.
    pub fn run_once(&mut self, log: &mut LogHistory, ready: bool) -> (r: Result<
        FollowerStep,
        ErrorKind,
    >)
        requires
            old(self).wf(),
            old(log).wf(),
        ensures
            *final(self) == *old(self),
            final(log).wf(),
            final(log)@.committed_tail.index.0 >= old(log)@.committed_tail.index.0,
            final(log)@.consumed_tail == old(log)@.consumed_tail,
            !ready ==> final(log)@ == old(log)@ && (r matches Ok(FollowerStep::Stay)),
            ready ==> {
                let done = completed(
                    old(log)@,
                    old(self).spec_message().suffix@,
                    old(self).spec_new_log_tail(),
                    old(self).spec_message().committed_log_tail,
                );
                &&& final(log)@ == done.0
                &&& match r {
                    Ok(step) => done.1 is Ok && (step matches FollowerStep::Done(reply) && same_header(
                        reply.to,
                        old(self).spec_message().header,
                    ) && reply.log_tail == old(self).spec_message().suffix@.tail() && !reply.busy),
                    Err(e) => done.1 == Err::<(), ErrorKind>(e),
                }
            },
    {
        if !ready {
            return Ok(FollowerStep::Stay);
        }
        let suffix_tail = self.message.suffix.tail();
        if self.new_log_tail == suffix_tail {
            match log.record_appended(&self.message.suffix) {
                Ok(()) => {},
                Err(e) => {
                    return Err(e);
                },
            }
        }
        match log.record_committed(self.message.committed_log_tail) {
            Ok(()) => {},
            Err(e) => {
                return Err(e);
            },
        }
        let to = self.message.header.clone();
        Ok(FollowerStep::Done(Reply { to, log_tail: suffix_tail, busy: false }))
    }
}

} // verus!
