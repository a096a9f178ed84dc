use raftlog::cluster::{ClusterConfig, ClusterState};
use raftlog::log::{Log, LogEntry, LogHistory, LogIndex, LogPosition, LogPrefix, LogSuffix};
use raftlog::members::ClusterMembers;
use raftlog::message::{AppendEntriesReply, MessageHeader, SequenceNumber};
use raftlog::node::NodeId;
use raftlog::node_state::leader::follower::{Follower, FollowersManager, Outgoing};
use raftlog::ErrorKind;

fn members(names: &[&str]) -> ClusterMembers {
    let mut set = ClusterMembers::new();
    for name in names {
        set.insert(NodeId::new(name));
    }
    set
}
fn config() -> ClusterConfig {
    ClusterConfig::new(members(&["A", "B", "C"]))
}
fn pos(prev_term: u64, index: u64) -> LogPosition {
    LogPosition { prev_term: prev_term.into(), index: index.into() }
}
fn noop(term: u64) -> LogEntry {
    LogEntry::Noop { term: term.into() }
}
fn reply(sender: &str, seq_no: u64, log_tail: LogPosition, busy: bool) -> AppendEntriesReply {
    AppendEntriesReply {
        header: MessageHeader {
            sender: NodeId::new(sender),
            destination: NodeId::new("A"),
            seq_no: SequenceNumber::new(seq_no),
            term: 3.into(),
        },
        log_tail,
        busy,
    }
}
/// Terms [1, 1, 2] at the indices 1 to 3.
fn history_of_three() -> LogHistory {
    let mut history = LogHistory::new(config());
    history
        .record_appended(&LogSuffix { head: pos(0, 0), entries: vec![noop(1), noop(1), noop(2)] })
        .unwrap();
    history
}
fn follower(manager: &FollowersManager, name: &str) -> Follower {
    manager.follower(&NodeId::new(name)).unwrap()
}
fn known(log_tail: u64, last_seq_no: u64, obsolete_seq_no: u64, synced: bool) -> Follower {
    Follower {
        obsolete_seq_no: SequenceNumber::new(obsolete_seq_no),
        log_tail: LogIndex::new(log_tail),
        last_seq_no: SequenceNumber::new(last_seq_no),
        synced,
    }
}

#[test]
fn a_new_manager_knows_nothing_of_its_followers() {
    let manager = FollowersManager::new(config());
    assert_eq!(Follower::new(), known(0, 0, 0, false));
    for name in ["A", "B", "C"] {
        assert_eq!(follower(&manager, name), Follower::new());
        assert!(!manager.is_loading(&NodeId::new(name)));
    }
    assert_eq!(manager.follower(&NodeId::new("D")), None);
    assert_eq!(manager.latest_hearbeat_ack(), SequenceNumber::new(0));
    assert_eq!(manager.committed_log_tail(), LogIndex::new(0));
    assert_eq!(manager.joint_committed_log_tail(), LogIndex::new(0));
}

#[test]
fn a_follower_comes_to_agree_where_the_terms_match() {
    let log = history_of_three();
    let mut manager = FollowersManager::new(config());
    // The leader has term 2 at index 3, not term 1.
    assert!(!manager.update_follower_state(&log, &reply("B", 1, pos(1, 3), false)));
    assert_eq!(follower(&manager, "B"), known(2, 1, 0, false));
    assert!(manager.update_follower_state(&log, &reply("B", 2, pos(1, 2), false)));
    assert_eq!(follower(&manager, "B"), known(2, 2, 0, true));
    assert_eq!(follower(&manager, "C"), Follower::new());
}

#[test]
fn a_follower_that_is_not_in_agreement_steps_back_to_zero_at_most() {
    let log = history_of_three();
    let mut manager = FollowersManager::new(config());
    assert!(!manager.update_follower_state(&log, &reply("B", 1, pos(9, 0), false)));
    assert_eq!(follower(&manager, "B"), known(0, 1, 0, false));
    assert!(manager.update_follower_state(&log, &reply("B", 1, pos(0, 0), false)));
    assert_eq!(follower(&manager, "B"), known(0, 1, 0, true));
}

#[test]
fn a_follower_in_agreement_moves_forward_only() {
    let log = history_of_three();
    let mut manager = FollowersManager::new(config());
    assert!(manager.update_follower_state(&log, &reply("B", 5, pos(1, 2), false)));
    assert!(manager.update_follower_state(&log, &reply("B", 6, pos(2, 3), false)));
    assert_eq!(follower(&manager, "B"), known(3, 6, 0, true));
    assert!(!manager.update_follower_state(&log, &reply("B", 4, pos(1, 2), false)));
    assert_eq!(follower(&manager, "B"), known(3, 6, 0, true));
    assert!(!manager.update_follower_state(&log, &reply("B", 7, pos(2, 3), false)));
    assert_eq!(follower(&manager, "B"), known(3, 7, 0, true));
}

#[test]
fn a_follower_that_reports_zero_has_lost_its_log() {
    let log = history_of_three();
    let mut manager = FollowersManager::new(config());
    assert!(manager.update_follower_state(&log, &reply("B", 1, pos(2, 3), false)));
    assert!(!manager.update_follower_state(&log, &reply("B", 2, pos(0, 0), false)));
    assert_eq!(follower(&manager, "B"), known(3, 2, 0, false));
    // At zero already: nothing was lost.
    assert!(manager.update_follower_state(&log, &reply("C", 1, pos(0, 0), false)));
    assert!(!manager.update_follower_state(&log, &reply("C", 2, pos(0, 0), false)));
    assert_eq!(follower(&manager, "C"), known(0, 2, 0, true));
}

#[test]
fn a_busy_reply_only_counts_as_an_answer() {
    let log = history_of_three();
    let mut manager = FollowersManager::new(config());
    assert!(!manager.update_follower_state(&log, &reply("B", 3, pos(2, 3), true)));
    assert_eq!(follower(&manager, "B"), known(0, 3, 0, false));
    assert!(!manager.update_follower_state(&log, &reply("B", 2, pos(2, 3), true)));
    assert_eq!(follower(&manager, "B"), known(0, 3, 0, false));
}

#[test]
fn the_committed_tail_is_what_a_majority_has() {
    let log = history_of_three();
    let mut manager = FollowersManager::new(config());
    assert!(manager.handle_append_entries_reply(&log, &reply("A", 1, pos(2, 3), false)));
    assert_eq!(manager.committed_log_tail(), LogIndex::new(0));
    assert_eq!(manager.latest_hearbeat_ack(), SequenceNumber::new(0));
    assert!(manager.handle_append_entries_reply(&log, &reply("B", 1, pos(1, 2), false)));
    assert_eq!(manager.committed_log_tail(), LogIndex::new(2));
    assert_eq!(manager.joint_committed_log_tail(), LogIndex::new(2));
    assert_eq!(manager.latest_hearbeat_ack(), SequenceNumber::new(1));
    // A follower that is not in agreement counts as zero.
    assert!(!manager.handle_append_entries_reply(&log, &reply("C", 4, pos(9, 3), false)));
    assert_eq!(manager.committed_log_tail(), LogIndex::new(2));
    assert_eq!(manager.latest_hearbeat_ack(), SequenceNumber::new(1));
    assert!(!manager.handle_append_entries_reply(&log, &reply("B", 4, pos(1, 2), true)));
    assert_eq!(manager.latest_hearbeat_ack(), SequenceNumber::new(4));
    // Not greater than the latest answer: nothing is computed anew.
    assert!(manager.handle_append_entries_reply(&log, &reply("B", 3, pos(2, 3), false)));
    assert_eq!(manager.latest_hearbeat_ack(), SequenceNumber::new(4));
    assert_eq!(manager.committed_log_tail(), LogIndex::new(3));
}

#[test]
fn joint_committed_tail_asks_both_sides() {
    let mut log = LogHistory::new(config());
    log.record_appended(&LogSuffix {
        head: pos(0, 0),
        entries: (0..10).map(|_| noop(1)).collect(),
    })
    .unwrap();
    let joint = ClusterConfig::with_state(
        members(&["A", "B", "C"]),
        members(&["A", "D", "E"]),
        ClusterState::Joint,
    );
    let mut manager = FollowersManager::new(joint);
    for name in ["A", "B", "C"] {
        assert!(manager.handle_append_entries_reply(&log, &reply(name, 1, pos(1, 10), false)));
    }
    for name in ["D", "E"] {
        assert!(manager.handle_append_entries_reply(&log, &reply(name, 1, pos(1, 5), false)));
    }
    assert_eq!(manager.committed_log_tail(), LogIndex::new(5));
    assert_eq!(manager.joint_committed_log_tail(), LogIndex::new(5));
    assert!(manager.handle_append_entries_reply(&log, &reply("D", 2, pos(1, 10), false)));
    assert_eq!(manager.committed_log_tail(), LogIndex::new(10));
    assert_eq!(manager.joint_committed_log_tail(), LogIndex::new(10));

    let catch_up = ClusterConfig::with_state(
        members(&["A", "B", "C"]),
        members(&["D", "E"]),
        ClusterState::CatchUp,
    );
    let mut manager = FollowersManager::new(catch_up);
    for name in ["D", "E"] {
        assert!(manager.handle_append_entries_reply(&log, &reply(name, 1, pos(1, 7), false)));
    }
    assert_eq!(manager.committed_log_tail(), LogIndex::new(7));
    assert_eq!(manager.joint_committed_log_tail(), LogIndex::new(0));
}

#[test]
fn log_sync_asks_for_what_the_follower_lacks() {
    let log = history_of_three();
    let mut manager = FollowersManager::new(config());
    manager.set_last_broadcast_seq_no(SequenceNumber::new(9));
    assert!(manager.update_follower_state(&log, &reply("B", 1, pos(1, 1), false)));

    let load = manager.log_sync(&log, &reply("B", 1, pos(1, 1), false)).unwrap().unwrap();
    assert_eq!(load.follower.as_str(), "B");
    assert_eq!(load.start, LogIndex::new(1));
    assert_eq!(load.end, Some(LogIndex::new(3)));
    assert!(manager.is_loading(&NodeId::new("B")));
    assert_eq!(follower(&manager, "B"), known(1, 1, 9, true));

    // A read is under way.
    assert!(manager.log_sync(&log, &reply("B", 20, pos(1, 1), false)).unwrap().is_none());
    assert_eq!(follower(&manager, "B"), known(1, 1, 9, true));

    let sent = manager.run_once(vec![(
        NodeId::new("B"),
        Log::Suffix(LogSuffix { head: pos(1, 1), entries: vec![noop(1), noop(2)] }),
    )]);
    assert_eq!(sent.len(), 1);
    match &sent[0] {
        Outgoing::AppendEntries { follower, suffix } => {
            assert_eq!(follower.as_str(), "B");
            assert_eq!(suffix.tail(), pos(2, 3));
        }
        other => panic!("not entries: {:?}", other),
    }
    assert!(!manager.is_loading(&NodeId::new("B")));

    // The answer to a request from before the last synchronisation began.
    assert!(manager.log_sync(&log, &reply("B", 9, pos(1, 1), false)).unwrap().is_none());
    assert!(!manager.is_loading(&NodeId::new("B")));
}

#[test]
fn log_sync_searches_for_the_place_of_agreement() {
    let log = history_of_three();
    let mut manager = FollowersManager::new(config());
    assert!(!manager.update_follower_state(&log, &reply("C", 1, pos(7, 3), false)));
    assert_eq!(follower(&manager, "C"), known(2, 1, 0, false));
    let load = manager.log_sync(&log, &reply("C", 1, pos(7, 3), false)).unwrap().unwrap();
    assert_eq!(load.follower.as_str(), "C");
    assert_eq!(load.start, LogIndex::new(2));
    assert_eq!(load.end, Some(LogIndex::new(2)));
    assert!(manager.is_loading(&NodeId::new("C")));
}

#[test]
fn log_sync_leaves_busy_unknown_and_current_followers_alone() {
    let log = history_of_three();
    let mut manager = FollowersManager::new(config());
    manager.set_last_broadcast_seq_no(SequenceNumber::new(9));
    assert!(manager.log_sync(&log, &reply("B", 1, pos(0, 0), true)).unwrap().is_none());
    assert_eq!(follower(&manager, "B"), Follower::new());
    assert!(matches!(
        manager.log_sync(&log, &reply("Z", 1, pos(0, 0), false)),
        Err(ErrorKind::InconsistentState)
    ));
    // Number 0 is not greater than the obsolete number 0.
    assert!(manager.log_sync(&log, &reply("B", 0, pos(0, 0), false)).unwrap().is_none());
    assert_eq!(follower(&manager, "B"), Follower::new());

    assert!(manager.update_follower_state(&log, &reply("B", 1, pos(2, 3), false)));
    assert!(manager.log_sync(&log, &reply("B", 1, pos(2, 3), false)).unwrap().is_none());
    assert_eq!(follower(&manager, "B"), known(3, 1, 9, true));
    assert!(!manager.is_loading(&NodeId::new("B")));
}

#[test]
fn run_once_hands_out_what_was_read() {
    let log = history_of_three();
    let mut manager = FollowersManager::new(config());
    assert!(!manager.update_follower_state(&log, &reply("B", 1, pos(5, 1), false)));
    assert!(!manager.update_follower_state(&log, &reply("C", 1, pos(5, 2), false)));
    manager.set_last_broadcast_seq_no(SequenceNumber::new(1));
    assert!(manager.log_sync(&log, &reply("C", 2, pos(5, 2), false)).unwrap().is_some());
    assert!(manager.is_loading(&NodeId::new("C")));
    let sent = manager.run_once(vec![
        (
            NodeId::new("C"),
            Log::Prefix(LogPrefix { tail: pos(1, 2), config: config(), snapshot: vec![4] }),
        ),
        (NodeId::new("B"), Log::Suffix(LogSuffix { head: pos(0, 0), entries: vec![noop(1)] })),
    ]);
    assert_eq!(sent.len(), 2);
    match &sent[0] {
        Outgoing::InstallSnapshot { follower, prefix } => {
            assert_eq!(follower.as_str(), "C");
            assert_eq!(prefix.tail, pos(1, 2));
            assert_eq!(prefix.snapshot, [4]);
        }
        other => panic!("not a snapshot: {:?}", other),
    }
    match &sent[1] {
        Outgoing::AppendEntries { follower, suffix } => {
            assert_eq!(follower.as_str(), "B");
            assert_eq!(suffix.tail(), pos(1, 1));
        }
        other => panic!("not entries: {:?}", other),
    }
    assert!(!manager.is_loading(&NodeId::new("C")));
    assert!(manager.run_once(Vec::new()).is_empty());
}

#[test]
fn a_new_configuration_brings_and_takes_followers() {
    let log = history_of_three();
    let mut manager = FollowersManager::new(config());
    assert!(manager.update_follower_state(&log, &reply("B", 1, pos(2, 3), false)));
    assert!(manager.update_follower_state(&log, &reply("C", 1, pos(1, 2), false)));
    let change = config().start_config_change(members(&["B", "D"]));
    manager.handle_config_updated(&change);
    assert_eq!(follower(&manager, "A"), Follower::new());
    assert_eq!(follower(&manager, "B"), known(3, 1, 0, true));
    assert_eq!(follower(&manager, "C"), known(2, 1, 0, true));
    assert_eq!(follower(&manager, "D"), Follower::new());
    // In `CatchUp` the old members decide alone.
    assert_eq!(manager.committed_log_tail(), LogIndex::new(2));
    assert_eq!(manager.joint_committed_log_tail(), LogIndex::new(0));

    let done = change.to_next_state().to_next_state();
    manager.handle_config_updated(&done);
    assert_eq!(manager.follower(&NodeId::new("A")), None);
    assert_eq!(manager.follower(&NodeId::new("C")), None);
    assert_eq!(follower(&manager, "B"), known(3, 1, 0, true));
    assert_eq!(follower(&manager, "D"), Follower::new());
    assert_eq!(manager.committed_log_tail(), LogIndex::new(0));
    assert!(manager.update_follower_state(&log, &reply("D", 1, pos(2, 3), false)));
    assert_eq!(manager.committed_log_tail(), LogIndex::new(3));
}
