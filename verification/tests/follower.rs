use raftlog::cluster::ClusterConfig;
use raftlog::log::{LogEntry, LogHistory, LogIndex, LogPosition, LogPrefix, LogSuffix};
use raftlog::members::ClusterMembers;
use raftlog::message::{
    AppendEntriesCall, AppendEntriesReply, InstallSnapshotCast, Message, MessageHeader,
    RequestVoteCall, SequenceNumber,
};
use raftlog::node::NodeId;
use raftlog::node_state::follower::{
    Follower, FollowerAppend, FollowerIdle, FollowerSnapshot, FollowerStep,
};
use raftlog::ErrorKind;

fn config() -> ClusterConfig {
    let mut set = ClusterMembers::new();
    for name in ["A", "B", "C"] {
        set.insert(NodeId::new(name));
    }
    ClusterConfig::new(set)
}
fn pos(prev_term: u64, index: u64) -> LogPosition {
    LogPosition { prev_term: prev_term.into(), index: index.into() }
}
fn noop(term: u64) -> LogEntry {
    LogEntry::Noop { term: term.into() }
}
fn header(seq_no: u64) -> MessageHeader {
    MessageHeader {
        sender: NodeId::new("A"),
        destination: NodeId::new("B"),
        seq_no: SequenceNumber::new(seq_no),
        term: 3.into(),
    }
}
fn call(seq_no: u64, head: LogPosition, terms: &[u64], committed: u64) -> AppendEntriesCall {
    AppendEntriesCall {
        header: header(seq_no),
        committed_log_tail: committed.into(),
        suffix: LogSuffix { head, entries: terms.iter().map(|t| noop(*t)).collect() },
    }
}
/// Terms [1, 1, 2] at the indices 1 to 3.
fn history_of_three() -> LogHistory {
    let mut history = LogHistory::new(config());
    history
        .record_appended(&LogSuffix { head: pos(0, 0), entries: vec![noop(1), noop(1), noop(2)] })
        .unwrap();
    history
}
fn reply_of(step: FollowerStep) -> (u64, LogPosition, bool) {
    match step {
        FollowerStep::Reply(reply) => (reply.to.seq_no.as_u64(), reply.log_tail, reply.busy),
        other => panic!("not a reply: {:?}", other),
    }
}
fn append_of(step: FollowerStep) -> FollowerAppend {
    match step {
        FollowerStep::Append(next) => next,
        other => panic!("not an append: {:?}", other),
    }
}
fn done_of(step: FollowerStep) -> (u64, LogPosition, bool) {
    match step {
        FollowerStep::Done(reply) => (reply.to.seq_no.as_u64(), reply.log_tail, reply.busy),
        other => panic!("not done: {:?}", other),
    }
}
fn suffix_terms(next: &FollowerAppend) -> Vec<u64> {
    next.message().suffix.entries.iter().map(|e| e.term().as_u64()).collect()
}

#[test]
fn logs_that_have_parted_are_rolled_back() {
    let mut log = history_of_three();
    let idle = FollowerIdle::new();
    let leader = LogSuffix { head: pos(1, 2), entries: vec![noop(3), noop(3)] };
    assert_eq!(idle.longest_common_prefix(&log, &leader), Ok((false, pos(1, 2))));

    let mut idle = FollowerIdle::new();
    let message = Message::AppendEntriesCall(call(7, pos(1, 2), &[3, 3], 0));
    let step = idle.handle_message(&mut log, false, message).unwrap();
    assert_eq!(reply_of(step), (7, pos(1, 2), false));
    assert_eq!(log.tail(), pos(1, 2));
    assert_eq!(log.last_record().head, pos(1, 1));
}

#[test]
fn common_prefix_where_the_leader_reaches_the_local_tail() {
    let log = history_of_three();
    let idle = FollowerIdle::new();
    let leader = LogSuffix { head: pos(1, 2), entries: vec![noop(2), noop(2), noop(2)] };
    assert_eq!(idle.longest_common_prefix(&log, &leader), Ok((true, pos(2, 3))));
    let leader = LogSuffix { head: pos(2, 3), entries: vec![noop(5)] };
    assert_eq!(idle.longest_common_prefix(&log, &leader), Ok((true, pos(2, 3))));
}

#[test]
fn common_prefix_where_the_local_log_holds_all() {
    let log = history_of_three();
    let idle = FollowerIdle::new();
    let leader = LogSuffix { head: pos(0, 0), entries: vec![noop(1), noop(1)] };
    assert_eq!(idle.longest_common_prefix(&log, &leader), Ok((true, pos(1, 2))));
    let leader = LogSuffix { head: pos(1, 1), entries: Vec::new() };
    assert_eq!(idle.longest_common_prefix(&log, &leader), Ok((true, pos(1, 1))));
}

#[test]
fn common_prefix_without_a_record() {
    let mut log = history_of_three();
    log.record_committed(3.into()).unwrap();
    log.record_snapshot_installed(pos(1, 2), config()).unwrap();
    let idle = FollowerIdle::new();
    let leader = LogSuffix { head: pos(1, 1), entries: vec![noop(1)] };
    assert_eq!(idle.longest_common_prefix(&log, &leader), Err(ErrorKind::InconsistentState));
    // The logs part at the head of the local log: the place before has no record.
    let leader = LogSuffix { head: pos(4, 2), entries: vec![noop(4)] };
    assert_eq!(idle.longest_common_prefix(&log, &leader), Err(ErrorKind::InconsistentState));
    // The logs part at index 0.
    let log = LogHistory::new(config());
    let leader = LogSuffix { head: pos(4, 0), entries: vec![noop(4)] };
    assert_eq!(idle.longest_common_prefix(&log, &leader), Err(ErrorKind::InconsistentState));
}

#[test]
fn entries_before_the_local_log_are_answered_with_the_tail() {
    let mut log = history_of_three();
    log.record_committed(3.into()).unwrap();
    log.record_snapshot_installed(pos(2, 3), config()).unwrap();
    let mut idle = FollowerIdle::new();
    let step = idle.handle_entries(&mut log, call(4, pos(0, 0), &[1, 1], 2)).unwrap();
    assert_eq!(reply_of(step), (4, pos(2, 3), false));
    assert_eq!(log.tail(), pos(2, 3));
}

#[test]
fn entries_after_a_gap_are_answered_with_the_tail() {
    let mut log = history_of_three();
    let mut idle = FollowerIdle::new();
    let step = idle.handle_entries(&mut log, call(5, pos(2, 4), &[2, 2], 4)).unwrap();
    assert_eq!(reply_of(step), (5, pos(2, 3), false));
    assert_eq!(log.tail(), pos(2, 3));
}

#[test]
fn entries_that_reach_into_the_snapshot_are_cut() {
    let mut log = history_of_three();
    log.record_committed(3.into()).unwrap();
    log.record_snapshot_installed(pos(1, 2), config()).unwrap();
    let mut idle = FollowerIdle::new();
    let step = idle.handle_entries(&mut log, call(6, pos(0, 0), &[1, 1, 2, 2, 2], 4)).unwrap();
    let next = append_of(step);
    assert_eq!(next.message().suffix.head, pos(2, 3));
    assert_eq!(suffix_terms(&next), [2, 2]);
    assert_eq!(next.message().committed_log_tail, LogIndex::new(4));
    assert!(next.saves());
}

#[test]
fn entries_that_overlap_are_appended_from_the_local_tail() {
    let mut log = history_of_three();
    log.record_committed(1.into()).unwrap();
    let mut idle = FollowerIdle::new();
    let message = Message::AppendEntriesCall(call(8, pos(1, 2), &[2, 2, 3], 9));
    let step = idle.handle_message(&mut log, false, message).unwrap();
    let mut next = append_of(step);
    assert_eq!(next.message().header.seq_no.as_u64(), 8);
    assert_eq!(next.message().suffix.head, pos(2, 3));
    assert_eq!(suffix_terms(&next), [2, 3]);
    assert_eq!(next.message().committed_log_tail, LogIndex::new(5));
    assert!(next.saves());

    // Not persisted yet.
    assert!(matches!(next.run_once(&mut log, false), Ok(FollowerStep::Stay)));
    assert_eq!(log.tail(), pos(2, 3));
    // A message in between is told that the follower is busy.
    let busy = next.handle_message(&log, Message::AppendEntriesCall(call(9, pos(2, 3), &[], 0)));
    assert_eq!(reply_of(busy), (9, pos(2, 3), true));
    let vote = Message::RequestVoteCall(RequestVoteCall { header: header(10), log_tail: pos(0, 0) });
    assert!(matches!(next.handle_message(&log, vote), FollowerStep::Stay));

    let step = next.run_once(&mut log, true).unwrap();
    assert_eq!(done_of(step), (8, pos(3, 5), false));
    assert_eq!(log.tail(), pos(3, 5));
    assert_eq!(log.committed_tail(), pos(3, 5));
    assert_eq!(log.last_record().head, pos(3, 5));
}

#[test]
fn a_heartbeat_moves_the_committed_tail() {
    let mut log = history_of_three();
    let mut idle = FollowerIdle::new();
    let step = idle.handle_entries(&mut log, call(11, pos(2, 3), &[], 2)).unwrap();
    let mut next = append_of(step);
    assert!(!next.saves());
    assert_eq!(next.message().committed_log_tail, LogIndex::new(2));
    let step = next.run_once(&mut log, true).unwrap();
    assert_eq!(done_of(step), (11, pos(2, 3), false));
    assert_eq!(log.tail(), pos(2, 3));
    assert_eq!(log.committed_tail(), pos(1, 2));
}

#[test]
fn a_late_message_does_not_move_anything_back() {
    let mut log = history_of_three();
    log.record_committed(3.into()).unwrap();
    let mut idle = FollowerIdle::new();
    let step = idle.handle_entries(&mut log, call(12, pos(0, 0), &[1, 1], 1)).unwrap();
    let mut next = append_of(step);
    assert!(!next.saves());
    assert_eq!(next.message().suffix.head, pos(1, 2));
    assert_eq!(suffix_terms(&next), Vec::<u64>::new());
    assert_eq!(next.message().committed_log_tail, LogIndex::new(3));
    let step = next.run_once(&mut log, true).unwrap();
    assert_eq!(done_of(step), (12, pos(1, 2), false));
    assert_eq!(log.tail(), pos(2, 3));
    assert_eq!(log.committed_tail(), pos(2, 3));
}

#[test]
fn append_fails_where_the_terms_go_back() {
    let mut log = history_of_three();
    let mut next = FollowerAppend::new(&log, call(13, pos(2, 3), &[1], 0));
    assert!(next.saves());
    assert!(matches!(next.run_once(&mut log, true), Err(ErrorKind::Other)));
    assert_eq!(log.tail(), pos(2, 3));
}

#[test]
fn snapshots_are_installed_unless_old_or_in_the_way() {
    let prefix = |index: u64| LogPrefix { tail: pos(2, index), config: config(), snapshot: vec![1] };
    let cast = |index: u64| {
        Message::InstallSnapshotCast(InstallSnapshotCast { header: header(1), prefix: prefix(index) })
    };
    let mut log = history_of_three();
    log.record_committed(2.into()).unwrap();
    let mut idle = FollowerIdle::new();
    assert!(matches!(idle.handle_message(&mut log, false, cast(2)), Ok(FollowerStep::Stay)));
    assert!(matches!(idle.handle_message(&mut log, false, cast(1)), Ok(FollowerStep::Stay)));
    assert!(matches!(idle.handle_message(&mut log, true, cast(3)), Ok(FollowerStep::Stay)));
    let mut next = match idle.handle_message(&mut log, false, cast(5)) {
        Ok(FollowerStep::Snapshot(next)) => next,
        other => panic!("not a snapshot: {:?}", other),
    };
    assert_eq!(next.prefix().tail, pos(2, 5));
    assert_eq!(next.prefix().snapshot, [1]);
    assert_eq!(log.tail(), pos(2, 3));
    assert_eq!(log.head(), pos(0, 0));

    // While the snapshot is persisted the follower is busy.
    let busy = next.handle_message(&log, Message::AppendEntriesCall(call(9, pos(2, 3), &[], 0)));
    assert_eq!(reply_of(busy), (9, pos(2, 3), true));
    assert!(matches!(next.handle_message(&log, cast(9)), FollowerStep::Stay));
    assert!(matches!(next.run_once(&mut log, false), Ok(FollowerStep::Stay)));
    assert_eq!(log.head(), pos(0, 0));

    assert!(matches!(next.run_once(&mut log, true), Ok(FollowerStep::Idle)));
    assert_eq!(log.head(), pos(2, 5));
    assert_eq!(log.tail(), pos(2, 5));
    assert_eq!(log.committed_tail(), pos(2, 5));
    assert_eq!(log.consumed_tail(), pos(0, 0));
}

#[test]
fn a_snapshot_before_the_log_is_refused() {
    let mut log = history_of_three();
    log.record_committed(3.into()).unwrap();
    log.record_snapshot_installed(pos(2, 3), config()).unwrap();
    let mut next = FollowerSnapshot::new(LogPrefix {
        tail: pos(1, 2),
        config: config(),
        snapshot: Vec::new(),
    });
    assert!(matches!(next.run_once(&mut log, true), Err(ErrorKind::InconsistentState)));
    assert_eq!(log.head(), pos(2, 3));
}

#[test]
fn other_messages_are_dropped_when_idle() {
    let mut log = history_of_three();
    let mut idle = FollowerIdle::new();
    let vote = Message::RequestVoteCall(RequestVoteCall { header: header(2), log_tail: pos(0, 0) });
    assert_eq!(vote.header().seq_no.as_u64(), 2);
    assert!(matches!(idle.handle_message(&mut log, false, vote), Ok(FollowerStep::Stay)));
    let reply = Message::AppendEntriesReply(AppendEntriesReply {
        header: header(3),
        log_tail: pos(0, 0),
        busy: false,
    });
    assert!(matches!(idle.handle_message(&mut log, false, reply), Ok(FollowerStep::Stay)));
    assert_eq!(log.tail(), pos(2, 3));
    let states = [
        Follower::Idle(FollowerIdle::new()),
        Follower::Snapshot(FollowerSnapshot::new(LogPrefix {
            tail: pos(2, 3),
            config: config(),
            snapshot: Vec::new(),
        })),
        Follower::Append(FollowerAppend::new(&log, call(1, pos(2, 3), &[], 0))),
    ];
    assert!(matches!(states[0], Follower::Idle(_)));
    assert!(matches!(states[1], Follower::Snapshot(_)));
    assert!(matches!(states[2], Follower::Append(_)));
}
