use raftlog::cluster::ClusterConfig;
use raftlog::election::{Ballot, Term};
use raftlog::log::{Log, LogEntry, LogPosition, LogPrefix, LogSuffix};
use raftlog::members::ClusterMembers;
use raftlog::node::NodeId;
use raftlog::storage::Storage;

fn config() -> ClusterConfig {
    let mut set = ClusterMembers::new();
    set.insert(NodeId::new("A"));
    ClusterConfig::new(set)
}
fn pos(prev_term: u64, index: u64) -> LogPosition {
    LogPosition { prev_term: prev_term.into(), index: index.into() }
}
fn noop(term: u64) -> LogEntry {
    LogEntry::Noop { term: term.into() }
}
fn suffix(head: LogPosition, terms: &[u64]) -> LogSuffix {
    LogSuffix { head, entries: terms.iter().map(|t| noop(*t)).collect() }
}
fn prefix(tail: LogPosition) -> LogPrefix {
    LogPrefix { tail, config: config(), snapshot: vec![tail.index.as_u64() as u8] }
}
fn terms(log: &Log) -> (LogPosition, Vec<u64>) {
    match log {
        Log::Suffix(s) => (s.head, s.entries.iter().map(|e| e.term().as_u64()).collect()),
        Log::Prefix(_) => panic!("a snapshot"),
    }
}
fn snapshot_tail(log: &Log) -> LogPosition {
    match log {
        Log::Prefix(p) => p.tail,
        Log::Suffix(_) => panic!("entries"),
    }
}

#[test]
fn the_last_ballot_is_loaded() {
    let mut storage = Storage::new();
    assert!(storage.load_ballot().is_none());
    storage.save_ballot(&Ballot { term: Term::new(1), voted_for: NodeId::new("A") });
    storage.save_ballot(&Ballot { term: Term::new(2), voted_for: NodeId::new("B") });
    let last = storage.load_ballot().unwrap();
    assert_eq!(last.term, Term::new(2));
    assert_eq!(last.voted_for.as_str(), "B");
}

#[test]
fn an_empty_storage_loads_an_empty_log() {
    let storage = Storage::new();
    assert!(storage.snapshot().is_none());
    assert!(storage.rawlog().is_none());
    let log = storage.load_log(0.into(), None).unwrap();
    assert_eq!(terms(&log), (pos(0, 0), Vec::new()));
    assert!(storage.load_log(1.into(), None).is_none());
    assert!(storage.load_log(0.into(), Some(0.into())).is_none());
}

#[test]
fn saved_entries_are_merged() {
    let mut storage = Storage::new();
    assert!(storage.can_save_log_suffix(&suffix(pos(0, 0), &[1, 1])));
    storage.save_log_suffix(&suffix(pos(0, 0), &[1, 1]));
    assert!(storage.can_save_log_suffix(&suffix(pos(1, 2), &[2])));
    storage.save_log_suffix(&suffix(pos(1, 2), &[2]));
    assert_eq!(terms(&storage.load_log(0.into(), None).unwrap()), (pos(0, 0), vec![1, 1, 2]));
    // An overlap replaces what was kept from the joint on.
    assert!(storage.can_save_log_suffix(&suffix(pos(1, 1), &[3, 3, 3])));
    storage.save_log_suffix(&suffix(pos(1, 1), &[3, 3, 3]));
    assert_eq!(terms(&storage.load_log(0.into(), None).unwrap()), (pos(0, 0), vec![1, 3, 3, 3]));
    assert_eq!(storage.rawlog().as_ref().unwrap().tail(), pos(3, 4));

    // A gap, another term before the joint, an earlier term at the head.
    assert!(!storage.can_save_log_suffix(&suffix(pos(3, 5), &[3])));
    assert!(!storage.can_save_log_suffix(&suffix(pos(2, 4), &[3])));
    assert!(!storage.can_save_log_suffix(&suffix(pos(1, 3), &[3])));
    assert!(storage.can_save_log_suffix(&suffix(pos(3, 3), &[3])));
}

#[test]
fn a_later_snapshot_replaces_an_earlier_one() {
    let mut storage = Storage::new();
    assert!(storage.can_save_log_prefix(&prefix(pos(1, 2))));
    storage.save_log_prefix(prefix(pos(1, 2)));
    assert!(!storage.can_save_log_prefix(&prefix(pos(1, 1))));
    assert!(!storage.can_save_log_prefix(&prefix(pos(0, 5))));
    assert!(storage.can_save_log_prefix(&prefix(pos(1, 2))));
    assert!(storage.can_save_log_prefix(&prefix(pos(2, 5))));
    storage.save_log_prefix(prefix(pos(2, 5)));
    assert_eq!(storage.snapshot().as_ref().unwrap().tail, pos(2, 5));
    assert_eq!(storage.snapshot().as_ref().unwrap().snapshot, [5]);
}

#[test]
fn loads_prefer_the_snapshot_from_zero() {
    let mut storage = Storage::new();
    storage.save_log_prefix(prefix(pos(1, 2)));
    storage.save_log_suffix(&suffix(pos(1, 2), &[1, 2, 2]));

    assert_eq!(snapshot_tail(&storage.load_log(0.into(), None).unwrap()), pos(1, 2));
    assert_eq!(snapshot_tail(&storage.load_log(0.into(), Some(2.into())).unwrap()), pos(1, 2));
    assert_eq!(snapshot_tail(&storage.load_log(0.into(), Some(0.into())).unwrap()), pos(1, 2));
    // Beyond the snapshot, and not within the entries.
    assert!(storage.load_log(0.into(), Some(3.into())).is_none());
    assert!(storage.load_log(1.into(), None).is_none());
    assert!(storage.load_log(1.into(), Some(3.into())).is_none());

    assert_eq!(terms(&storage.load_log(2.into(), None).unwrap()), (pos(1, 2), vec![1, 2, 2]));
    assert_eq!(terms(&storage.load_log(3.into(), None).unwrap()), (pos(1, 3), vec![2, 2]));
    assert_eq!(terms(&storage.load_log(5.into(), None).unwrap()), (pos(2, 5), vec![]));
    assert!(storage.load_log(6.into(), None).is_none());
    assert_eq!(terms(&storage.load_log(3.into(), Some(4.into())).unwrap()), (pos(1, 3), vec![2]));
    assert_eq!(terms(&storage.load_log(4.into(), Some(4.into())).unwrap()), (pos(2, 4), vec![]));
    assert!(storage.load_log(4.into(), Some(3.into())).is_none());
    assert!(storage.load_log(4.into(), Some(6.into())).is_none());
}

#[test]
fn loads_without_entries() {
    let mut storage = Storage::new();
    storage.save_log_prefix(prefix(pos(1, 2)));
    assert_eq!(snapshot_tail(&storage.load_log(0.into(), None).unwrap()), pos(1, 2));
    assert!(storage.load_log(2.into(), None).is_none());
    assert!(storage.load_log(2.into(), Some(2.into())).is_none());
}
