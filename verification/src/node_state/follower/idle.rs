//! The follower while it waits for a message of its leader.
use vstd::prelude::*;
use crate::error::ErrorKind;
use crate::log::LogHistory;
use crate::log::LogIndex;
use crate::log::LogPosition;
use crate::log::LogSuffix;
use crate::log::LogSuffixView;
use crate::log::history::LogHistoryView;
use crate::log::history::later_of;
use crate::message::AppendEntriesCall;
use crate::message::Message;
use crate::message::MessageHeader;
use crate::node_state::follower::FollowerStep;
use crate::node_state::follower::Reply;
use crate::node_state::follower::append::FollowerAppend;
use crate::node_state::follower::snapshot::FollowerSnapshot;
use crate::node_state::follower::append::credited;

verus! {

/// How far the local log `h` and the entries `suffix` of a leader agree,
/// found by a walk over the places of `suffix` from the one after `from`
/// entries on.
///
/// At each place the term before it is held against the term that `h` has
/// on record there. Where the two differ the logs have parted: the result
/// is `false` with the place one before, under the term that `h` has on
/// record there. Where they agree and the place is the local tail, the
/// result is `true` with the local tail. Where the walk ends without
/// either, it is `true` with the tail of `suffix`. A place for which `h`
/// has no record, and a parting at index 0, are `InconsistentState`.
pub open spec fn common_prefix(h: LogHistoryView, suffix: LogSuffixView, from: int) -> Result<
    (bool, LogPosition),
    ErrorKind,
>
    decreases suffix.entries.len() + 1 - from,
{
    if from > suffix.entries.len() {
        Ok((true, suffix.tail()))
    } else {
        let place = suffix.position_at(from);
        match h.get_record(place.index) {
            None => Err(ErrorKind::InconsistentState),
            Some(record) => {
                if place.prev_term != record.head.prev_term {
                    if place.index.0 == 0 {
                        Err(ErrorKind::InconsistentState)
                    } else {
                        let before = LogIndex((place.index.0 - 1) as u64);
                        match h.get_record(before) {
                            None => Err(ErrorKind::InconsistentState),
                            Some(earlier) => Ok(
                                (
                                    false,
                                    LogPosition {
                                        prev_term: earlier.head.prev_term,
                                        index: before,
                                    },
                                ),
                            ),
                        }
                    }
                } else if place.index == h.appended_tail.index {
                    Ok((true, h.appended_tail))
                } else {
                    common_prefix(h, suffix, from + 1)
                }
            },
        }
    }
}

/// Whether the local log `h` has on record, at the place of `suffix` after
/// `k` entries, the term that `suffix` has before that place.
pub open spec fn agrees_at(h: LogHistoryView, suffix: LogSuffixView, k: int) -> bool {
    h.get_record(suffix.position_at(k).index) matches Some(record) && record.head.prev_term
        == suffix.position_at(k).prev_term
}

/// What the walk finds. Where the result is `true`, the logs agree at
/// every place of the walk up to the place found. Where it is `false`,
/// they agree at every place of the walk before some place, differ there,
/// and the place found is the one before it, under the term that the
/// local log has on record there.
pub proof fn lemma_common_prefix_meaning(h: LogHistoryView, suffix: LogSuffixView, from: int)
    requires
        suffix.fits(),
        0 <= from <= suffix.entries.len() + 1,
    ensures
        match common_prefix(h, suffix, from) {
            Ok((true, place)) => {
                &&& suffix.head.index.0 <= place.index.0 <= suffix.tail().index.0
                &&& forall|j: int|
                    from <= j <= place.index.0 - suffix.head.index.0 ==> agrees_at(h, suffix, j)
                &&& place == h.appended_tail || place == suffix.tail()
            },
            Ok((false, place)) => exists|k: int|
                {
                    &&& from <= k <= suffix.entries.len()
                    &&& forall|j: int| from <= j < k ==> agrees_at(h, suffix, j)
                    &&& !agrees_at(h, suffix, k)
                    &&& #[trigger] suffix.position_at(k).index.0 == place.index.0 + 1
                    &&& h.get_record(place.index) matches Some(record) && record.head.prev_term
                        == place.prev_term
                },
            Err(e) => e == ErrorKind::InconsistentState,
        },
    decreases suffix.entries.len() + 1 - from,
{
    if from <= suffix.entries.len() {
        let here = suffix.position_at(from);
        match h.get_record(here.index) {
            None => {},
            Some(record) => {
                if here.prev_term != record.head.prev_term {
                    if here.index.0 != 0 {
                        let before = LogIndex((here.index.0 - 1) as u64);
                        if h.get_record(before) is Some {
                            let place = LogPosition {
                                prev_term: h.get_record(before)->0.head.prev_term,
                                index: before,
                            };
                            assert(suffix.position_at(from).index.0 == place.index.0 + 1);
                        }
                    }
                } else if here.index == h.appended_tail.index {
                    assert forall|j: int|
                        from <= j <= h.appended_tail.index.0
                            - suffix.head.index.0 implies agrees_at(h, suffix, j) by {
                        assert(j == from);
                    }
                } else {
                    lemma_common_prefix_meaning(h, suffix, from + 1);
                    match common_prefix(h, suffix, from + 1) {
                        Ok((true, place)) => {
                            assert forall|j: int|
                                from <= j <= place.index.0
                                    - suffix.head.index.0 implies agrees_at(h, suffix, j) by {
                                if j > from {
                                    assert(agrees_at(h, suffix, j));
                                }
                            }
                        },
                        Ok((false, place)) => {
                            let k = choose|k: int|
                                {
                                    &&& from + 1 <= k <= suffix.entries.len()
                                    &&& forall|j: int| from + 1 <= j < k ==> agrees_at(h, suffix, j)
                                    &&& !agrees_at(h, suffix, k)
                                    &&& #[trigger] suffix.position_at(k).index.0 == place.index.0
                                        + 1
                                    &&& h.get_record(place.index) matches Some(record)
                                        && record.head.prev_term == place.prev_term
                                };
                            assert forall|j: int| from <= j < k implies agrees_at(h, suffix, j) by {
                                if j > from {
                                    assert(agrees_at(h, suffix, j));
                                }
                            }
                            assert(suffix.position_at(k).index.0 == place.index.0 + 1);
                        },
                        Err(_) => {},
                    }
                }
            },
        }
    }
}

/// Where the logs agree, the place found lies within the entries.
pub proof fn lemma_common_prefix_covered(h: LogHistoryView, suffix: LogSuffixView, from: int)
    requires
        suffix.fits(),
        0 <= from,
    ensures
        common_prefix(h, suffix, from) matches Ok((true, place)) ==> suffix.covers(place.index),
    decreases suffix.entries.len() + 1 - from,
{
    if from <= suffix.entries.len() {
        let place = suffix.position_at(from);
        match h.get_record(place.index) {
            None => {},
            Some(record) => {
                if place.prev_term == record.head.prev_term && place.index
                    != h.appended_tail.index {
                    lemma_common_prefix_covered(h, suffix, from + 1);
                }
            },
        }
    }
}

/// What the follower makes of entries that its leader sent.
pub enum EntriesOutcome {
    /// It reports the place as the tail of its log, and stays idle.
    Report(LogPosition),
    /// It begins to append `suffix`.
    Append { suffix: LogSuffixView, new_log_tail: LogPosition, committed: LogIndex, save: bool },
    /// It fails.
    Fail(ErrorKind),
}

/// What an idle follower with history `h` makes of the entries `suffix`,
/// which overlap its log or touch its tail, and the history after that;
/// `reported` is the index that the leader reports as committed.
///
/// Where the logs have parted, the local log is rolled back to the place
/// before, which is reported. Else the entries from the place where they
/// join the local log on are appended.
pub open spec fn joined(h: LogHistoryView, suffix: LogSuffixView, reported: LogIndex) -> (
    LogHistoryView,
    EntriesOutcome,
) {
    match common_prefix(h, suffix, 0) {
        Err(e) => (h, EntriesOutcome::Fail(e)),
        Ok((false, place)) => {
            let rolled = h.record_rollback(place);
            match rolled.1 {
                Ok(()) => (rolled.0, EntriesOutcome::Report(place)),
                Err(e) => (rolled.0, EntriesOutcome::Fail(e)),
            }
        },
        Ok((true, place)) => {
            let rest = suffix.skipped(place.index);
            (
                h,
                EntriesOutcome::Append {
                    suffix: rest,
                    new_log_tail: later_of(rest.tail(), h.appended_tail),
                    committed: credited(reported, rest.tail().index, h.committed_tail.index),
                    save: h.appended_tail.index.0 < rest.tail().index.0,
                },
            )
        },
    }
}

/// What an idle follower with history `h` makes of the entries `suffix`
/// of a leader that reports `reported` as committed, and the history
/// after that.
///
/// Entries that end before the beginning of the local log are answered
/// with the local tail. Else what lies before the beginning of the local
/// log is skipped. Entries that begin after the local tail are answered
/// with the local tail. The others are joined to the local log.
pub open spec fn received(h: LogHistoryView, suffix: LogSuffixView, reported: LogIndex) -> (
    LogHistoryView,
    EntriesOutcome,
) {
    if suffix.tail().index.0 < h.head().index.0 {
        (h, EntriesOutcome::Report(h.appended_tail))
    } else {
        let rest = if suffix.head.index.0 < h.head().index.0 {
            suffix.skipped(h.head().index)
        } else {
            suffix
        };
        if h.appended_tail.index.0 < rest.head.index.0 {
            (h, EntriesOutcome::Report(h.appended_tail))
        } else {
            joined(h, rest, reported)
        }
    }
}

/// Whether the step `r` of a follower on a message with header `to` is
/// the outcome `outcome`.
pub open spec fn step_is(
    r: Result<FollowerStep, ErrorKind>,
    to: MessageHeader,
    outcome: EntriesOutcome,
) -> bool {
    match outcome {
        EntriesOutcome::Report(place) => (r matches Ok(FollowerStep::Reply(reply)) && reply.to == to
            && reply.log_tail == place && !reply.busy),
        EntriesOutcome::Append { suffix, new_log_tail, committed, save } => (r matches Ok(
            FollowerStep::Append(next),
        ) && next.wf() && next.spec_message().header == to && next.spec_message().suffix@ == suffix
            && next.spec_message().committed_log_tail == committed && next.spec_new_log_tail()
            == new_log_tail && next.spec_saves() == save),
        EntriesOutcome::Fail(e) => r == Err::<FollowerStep, ErrorKind>(e),
    }
}

/// The follower while it waits for a message of its leader.
#[derive(Debug)]
pub struct FollowerIdle {}

impl FollowerIdle {
    /// The state of a follower that waits.
    pub fn new() -> (r: Self) {
        FollowerIdle {  }
    }

    /// Takes a message.
    ///
    /// Entries of the leader are dealt with as [`received`] says. A
    /// snapshot is dropped where it ends at or before the committed tail,
    /// or while another one is being installed, which `snapshot_installing`
    /// says; else it is to be installed. Every other message is dropped.
    pub fn handle_message(
        &mut self,
        log: &mut LogHistory,
        snapshot_installing: bool,
        message: Message,
    ) -> (r: Result<FollowerStep, ErrorKind>)
        requires
            old(log).wf(),
            message matches Message::AppendEntriesCall(m) ==> m.suffix@.fits(),
        ensures
            final(log).wf(),
            final(log)@.committed_tail == old(log)@.committed_tail,
            final(log)@.consumed_tail == old(log)@.consumed_tail,
            match message {
                Message::AppendEntriesCall(m) => {
                    let made = received(old(log)@, m.suffix@, m.committed_log_tail);
                    final(log)@ == made.0 && step_is(r, m.header, made.1)
                },
                Message::InstallSnapshotCast(m) => final(log)@ == old(log)@ && (if m.prefix.tail.index.0
                    <= old(log)@.committed_tail.index.0 || snapshot_installing {
                    r matches Ok(FollowerStep::Stay)
                } else {
                    r matches Ok(FollowerStep::Snapshot(next)) && next.spec_prefix() == m.prefix
                }),
                _ => final(log)@ == old(log)@ && (r matches Ok(FollowerStep::Stay)),
            },
    {
        match message {
            Message::AppendEntriesCall(m) => self.handle_entries(log, m),
            Message::InstallSnapshotCast(m) => {
                if m.prefix.tail.index.as_u64() <= log.committed_tail().index.as_u64() {
                    Ok(FollowerStep::Stay)
                } else if snapshot_installing {
                    Ok(FollowerStep::Stay)
                } else {
                    Ok(FollowerStep::Snapshot(FollowerSnapshot::new(m.prefix)))
                }
            },
            _ => Ok(FollowerStep::Stay),
        }
    }

    /// Takes entries of the leader: see [`received`].
    pub fn handle_entries(&mut self, log: &mut LogHistory, message: AppendEntriesCall) -> (r:
        Result<FollowerStep, ErrorKind>)
        requires
            old(log).wf(),
            message.suffix@.fits(),
        ensures
            final(log).wf(),
            final(log)@.committed_tail == old(log)@.committed_tail,
            final(log)@.consumed_tail == old(log)@.consumed_tail,
            final(log)@ == received(old(log)@, message.suffix@, message.committed_log_tail).0,
            step_is(
                r,
                message.header,
                received(old(log)@, message.suffix@, message.committed_log_tail).1,
            ),
    {
        let mut message = message;
        let local_tail = log.tail();
        if message.suffix.tail().index.as_u64() < log.head().index.as_u64() {
            return Ok(
                FollowerStep::Reply(Reply { to: message.header, log_tail: local_tail, busy: false }),
            );
        }
        if message.suffix.head.index.as_u64() < log.head().index.as_u64() {
            match message.suffix.skip_to(log.head().index) {
                Ok(()) => {},
                Err(e) => {
                    return Err(e);
                },
            }
        }
        if local_tail.index.as_u64() < message.suffix.head.index.as_u64() {
            Ok(FollowerStep::Reply(Reply { to: message.header, log_tail: local_tail, busy: false }))
        } else {
            self.handle_non_disjoint_entries(log, message)
        }
    }

    /// Takes entries of the leader that overlap the local log or touch its
    /// tail: see [`joined`].
    pub fn handle_non_disjoint_entries(
        &mut self,
        log: &mut LogHistory,
        message: AppendEntriesCall,
    ) -> (r: Result<FollowerStep, ErrorKind>)
        requires
            old(log).wf(),
            message.suffix@.fits(),
        ensures
            final(log).wf(),
            final(log)@.committed_tail == old(log)@.committed_tail,
            final(log)@.consumed_tail == old(log)@.consumed_tail,
            final(log)@ == joined(old(log)@, message.suffix@, message.committed_log_tail).0,
            step_is(
                r,
                message.header,
                joined(old(log)@, message.suffix@, message.committed_log_tail).1,
            ),
    {
        let mut message = message;
        let (matched, lcp) = match self.longest_common_prefix(log, &message.suffix) {
            Ok(found) => found,
            Err(e) => {
                return Err(e);
            },
        };
        if !matched {
            let new_log_tail = lcp;
            match log.record_rollback(new_log_tail) {
                Ok(()) => {},
                Err(e) => {
                    return Err(e);
                },
            }
            Ok(
                FollowerStep::Reply(
                    Reply { to: message.header, log_tail: new_log_tail, busy: false },
                ),
            )
        } else {
            proof {
                lemma_common_prefix_covered(log@, message.suffix@, 0);
            }
            match message.suffix.skip_to(lcp.index) {
                Ok(()) => {},
                Err(e) => {
                    return Err(e);
                },
            }
            let next = FollowerAppend::new(log, message);
            Ok(FollowerStep::Append(next))
        }
    }

    /// How far the local log and the entries `suffix` of a leader agree:
    /// see [`common_prefix`].
    pub fn longest_common_prefix(&self, log: &LogHistory, suffix: &LogSuffix) -> (r: Result<
        (bool, LogPosition),
        ErrorKind,
    >)
        requires
            suffix@.fits(),
        ensures
            r == common_prefix(log@, suffix@, 0),
    {
        let mut walk = suffix.positions();
        let ghost mut seen: int = 0;
        loop
            invariant
                suffix@.fits(),
                walk.suffix() == suffix,
                0 <= seen <= suffix@.entries.len() + 1,
                walk.remaining() == suffix@.positions().skip(seen),
                common_prefix(log@, suffix@, 0) == common_prefix(log@, suffix@, seen),
            decreases suffix@.entries.len() + 1 - seen,
        {
            let place = match walk.next() {
                Some(place) => place,
                None => {
                    return Ok((true, suffix.tail()));
                },
            };
            proof {
                assert(place == suffix@.positions()[seen]);
                assert(place == suffix@.position_at(seen));
                assert(suffix@.positions().skip(seen).skip(1) =~= suffix@.positions().skip(
                    seen + 1,
                ));
            }
            let record = match log.get_record(place.index) {
                Some(record) => record,
                None => {
                    return Err(ErrorKind::InconsistentState);
                },
            };
            let local_prev_term = record.head.prev_term;
            if place.prev_term != local_prev_term {
                if place.index.as_u64() == 0 {
                    return Err(ErrorKind::InconsistentState);
                }
                let before = place.index - 1;
                let earlier = match log.get_record(before) {
                    Some(earlier) => earlier,
                    None => {
                        return Err(ErrorKind::InconsistentState);
                    },
                };
                let mut lcp = earlier.head;
                lcp.index = before;
                return Ok((false, lcp));
            }
            if place.index.as_u64() == log.tail().index.as_u64() {
                return Ok((true, log.tail()));
            }
            proof {
                seen = seen + 1;
            }
        }
    }
}

} // verus!
