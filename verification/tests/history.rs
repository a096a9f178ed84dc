use raftlog::cluster::{ClusterConfig, ClusterState};
use raftlog::log::{HistoryRecord, LogEntry, LogHistory, LogPosition, LogPrefix, LogSuffix};
use raftlog::members::ClusterMembers;
use raftlog::node::NodeId;
use raftlog::ErrorKind;

fn members(names: &[&str]) -> ClusterMembers {
    let mut set = ClusterMembers::new();
    for name in names {
        set.insert(NodeId::new(name));
    }
    set
}
fn config() -> ClusterConfig {
    ClusterConfig::new(members(&["A", "B", "C"]))
}
fn other_config() -> ClusterConfig {
    ClusterConfig::with_state(members(&["A", "B", "D"]), members(&["A", "B", "C"]), ClusterState::Joint)
}
fn pos(prev_term: u64, index: u64) -> LogPosition {
    LogPosition { prev_term: prev_term.into(), index: index.into() }
}
fn noop(term: u64) -> LogEntry {
    LogEntry::Noop { term: term.into() }
}
fn command(term: u64) -> LogEntry {
    LogEntry::Command { term: term.into(), command: vec![1, 2] }
}
fn configure(term: u64, config: ClusterConfig) -> LogEntry {
    LogEntry::Config { term: term.into(), config }
}
fn suffix(head: LogPosition, entries: Vec<LogEntry>) -> LogSuffix {
    LogSuffix { head, entries }
}
fn heads(history: &LogHistory) -> Vec<LogPosition> {
    let mut found: Vec<LogPosition> = Vec::new();
    let tail = history.tail().index.as_u64().max(history.last_record().head.index.as_u64());
    for i in 0..=tail {
        if let Some(record) = history.get_record(i.into()) {
            if found.last() != Some(&record.head) {
                found.push(record.head);
            }
        }
    }
    found
}
/// Terms [1, 1, 2] at the indices 1 to 3.
fn history_of_three() -> LogHistory {
    let mut history = LogHistory::new(config());
    history
        .record_appended(&suffix(pos(0, 0), vec![noop(1), command(1), noop(2)]))
        .unwrap();
    history
}
fn check_invariants(history: &LogHistory) {
    let records = heads(history);
    assert!(!records.is_empty());
    assert_eq!(records[0], history.head());
    for pair in records.windows(2) {
        assert!(pair[0].index < pair[1].index);
        assert!(pair[0].prev_term <= pair[1].prev_term);
    }
    assert!(history.head().index <= history.consumed_tail().index);
    assert!(history.consumed_tail().index <= history.committed_tail().index);
    assert!(history.committed_tail().index <= history.tail().index);
    assert!(history.last_record().head.index <= history.tail().index);
}

#[test]
fn history_starts_at_zero() {
    let history = LogHistory::new(config());
    assert_eq!(history.head(), pos(0, 0));
    assert_eq!(history.tail(), pos(0, 0));
    assert_eq!(history.committed_tail(), pos(0, 0));
    assert_eq!(history.consumed_tail(), pos(0, 0));
    assert!(*history.config() == config());
    assert_eq!(history.last_record().head, pos(0, 0));
    assert_eq!(history.get_record(0.into()).unwrap().head, pos(0, 0));
    assert_eq!(history.get_record(100.into()).unwrap().head, pos(0, 0));
    let record = HistoryRecord::new(pos(1, 2), config());
    assert_eq!(record.head, pos(1, 2));
    assert!(record.clone().config == config());
    check_invariants(&history);
}

#[test]
fn history_records_term_changes() {
    let history = history_of_three();
    assert_eq!(history.tail(), pos(2, 3));
    assert_eq!(heads(&history), [pos(0, 0), pos(1, 1), pos(2, 3)]);
    assert_eq!(history.get_record(0.into()).unwrap().head, pos(0, 0));
    assert_eq!(history.get_record(1.into()).unwrap().head, pos(1, 1));
    assert_eq!(history.get_record(2.into()).unwrap().head, pos(1, 1));
    assert_eq!(history.get_record(3.into()).unwrap().head, pos(2, 3));
    assert_eq!(history.get_record(9.into()).unwrap().head, pos(2, 3));
    assert_eq!(history.last_record().head, pos(2, 3));
    check_invariants(&history);
}

#[test]
fn history_records_config_changes() {
    let mut history = history_of_three();
    history
        .record_appended(&suffix(
            pos(2, 3),
            vec![configure(2, config()), configure(2, other_config()), configure(3, other_config())],
        ))
        .unwrap();
    assert_eq!(history.tail(), pos(3, 6));
    assert_eq!(heads(&history), [pos(0, 0), pos(1, 1), pos(2, 3), pos(2, 5), pos(3, 6)]);
    assert!(history.get_record(4.into()).unwrap().config == config());
    assert!(history.get_record(5.into()).unwrap().config == other_config());
    assert!(history.get_record(6.into()).unwrap().config == other_config());
    assert!(*history.config() == other_config());
    check_invariants(&history);
}

#[test]
fn history_appended_skips_what_it_holds() {
    let mut history = history_of_three();
    history
        .record_appended(&suffix(pos(1, 1), vec![command(1), noop(2), noop(4), noop(4)]))
        .unwrap();
    assert_eq!(history.tail(), pos(4, 5));
    assert_eq!(heads(&history), [pos(0, 0), pos(1, 1), pos(2, 3), pos(4, 4)]);
    check_invariants(&history);

    history.record_appended(&suffix(pos(4, 5), Vec::new())).unwrap();
    assert_eq!(history.tail(), pos(4, 5));
    assert_eq!(heads(&history), [pos(0, 0), pos(1, 1), pos(2, 3), pos(4, 4)]);
    check_invariants(&history);
}

#[test]
fn history_appended_errors() {
    let mut history = history_of_three();
    assert_eq!(
        history.record_appended(&suffix(pos(2, 4), vec![noop(2)])),
        Err(ErrorKind::InconsistentState)
    );
    assert_eq!(history.tail(), pos(2, 3));
    assert_eq!(heads(&history), [pos(0, 0), pos(1, 1), pos(2, 3)]);

    assert_eq!(
        history.record_appended(&suffix(pos(2, 3), vec![noop(3), noop(1), noop(5)])),
        Err(ErrorKind::Other)
    );
    assert_eq!(history.tail(), pos(2, 3));
    assert_eq!(history.last_record().head, pos(3, 4));
}

#[test]
fn history_committed_and_consumed() {
    let mut history = history_of_three();
    assert_eq!(history.record_committed(4.into()), Err(ErrorKind::Other));
    assert_eq!(history.record_consumed(1.into()), Err(ErrorKind::Other));
    history.record_committed(2.into()).unwrap();
    assert_eq!(history.committed_tail(), pos(1, 2));
    assert_eq!(history.record_committed(1.into()), Err(ErrorKind::Other));
    assert_eq!(history.committed_tail(), pos(1, 2));
    history.record_committed(2.into()).unwrap();
    history.record_consumed(1.into()).unwrap();
    assert_eq!(history.consumed_tail(), pos(1, 1));
    assert_eq!(history.record_consumed(0.into()), Err(ErrorKind::Other));
    assert_eq!(history.record_consumed(3.into()), Err(ErrorKind::Other));
    history.record_committed(3.into()).unwrap();
    assert_eq!(history.committed_tail(), pos(2, 3));
    history.record_consumed(3.into()).unwrap();
    assert_eq!(history.consumed_tail(), pos(2, 3));
    check_invariants(&history);
}

#[test]
fn history_consumed_before_the_head_is_too_old() {
    let mut history = history_of_three();
    history.record_snapshot_installed(pos(7, 10), config()).unwrap();
    assert_eq!(history.consumed_tail(), pos(0, 0));
    assert_eq!(history.record_consumed(5.into()), Err(ErrorKind::Other));
    history.record_consumed(10.into()).unwrap();
    assert_eq!(history.consumed_tail(), pos(7, 10));
    check_invariants(&history);
}

#[test]
fn history_rollback() {
    let mut history = history_of_three();
    history.record_committed(1.into()).unwrap();
    assert_eq!(history.record_rollback(pos(2, 4)), Err(ErrorKind::Other));
    assert_eq!(history.record_rollback(pos(0, 0)), Err(ErrorKind::Other));
    assert_eq!(history.record_rollback(pos(2, 2)), Err(ErrorKind::InconsistentState));
    assert_eq!(history.tail(), pos(2, 3));
    assert_eq!(heads(&history), [pos(0, 0), pos(1, 1), pos(2, 3)]);

    history.record_rollback(pos(1, 2)).unwrap();
    assert_eq!(history.tail(), pos(1, 2));
    assert_eq!(heads(&history), [pos(0, 0), pos(1, 1)]);
    check_invariants(&history);

    history.record_rollback(pos(1, 1)).unwrap();
    assert_eq!(history.tail(), pos(1, 1));
    assert_eq!(heads(&history), [pos(0, 0), pos(1, 1)]);
    assert_eq!(history.committed_tail(), pos(1, 1));
    check_invariants(&history);
}

#[test]
fn history_snapshot_installed_within_the_log() {
    let mut history = history_of_three();
    history.record_committed(3.into()).unwrap();
    history.record_consumed(2.into()).unwrap();
    history.record_snapshot_installed(pos(1, 2), other_config()).unwrap();
    assert_eq!(history.head(), pos(1, 2));
    assert_eq!(history.tail(), pos(2, 3));
    assert_eq!(history.committed_tail(), pos(2, 3));
    assert_eq!(history.consumed_tail(), pos(1, 2));
    assert_eq!(heads(&history), [pos(1, 2), pos(2, 3)]);
    assert!(history.get_record(2.into()).unwrap().config == other_config());
    assert!(history.get_record(1.into()).is_none());
    assert!(history.get_record(0.into()).is_none());
    check_invariants(&history);

    assert_eq!(
        history.record_snapshot_installed(pos(1, 1), config()),
        Err(ErrorKind::InconsistentState)
    );
    assert_eq!(history.head(), pos(1, 2));
}

#[test]
fn history_snapshot_installed_beyond_the_log() {
    let mut history = history_of_three();
    history.record_snapshot_installed(pos(9, 20), other_config()).unwrap();
    assert_eq!(history.head(), pos(9, 20));
    assert_eq!(history.tail(), pos(9, 20));
    assert_eq!(history.committed_tail(), pos(9, 20));
    assert_eq!(history.consumed_tail(), pos(0, 0));
    assert_eq!(history.last_record().head, pos(9, 20));
    assert!(*history.config() == other_config());

    let snapshot = LogPrefix { tail: pos(9, 20), config: other_config(), snapshot: Vec::new() };
    history.record_snapshot_loaded(&snapshot).unwrap();
    assert_eq!(history.consumed_tail(), pos(9, 20));
    check_invariants(&history);
}

#[test]
fn history_snapshot_loaded() {
    let mut history = history_of_three();
    history.record_committed(2.into()).unwrap();
    let late = LogPrefix { tail: pos(2, 3), config: config(), snapshot: Vec::new() };
    assert_eq!(history.record_snapshot_loaded(&late), Err(ErrorKind::InconsistentState));
    assert_eq!(history.consumed_tail(), pos(0, 0));
    let fits = LogPrefix { tail: pos(1, 2), config: config(), snapshot: vec![7] };
    history.record_snapshot_loaded(&fits).unwrap();
    assert_eq!(history.consumed_tail(), pos(1, 2));
    let early = LogPrefix { tail: pos(1, 1), config: config(), snapshot: Vec::new() };
    history.record_snapshot_loaded(&early).unwrap();
    assert_eq!(history.consumed_tail(), pos(1, 2));
    check_invariants(&history);
}

#[test]
fn history_frontiers_never_retreat() {
    let mut history = LogHistory::new(config());
    let mut committed = 0;
    let mut consumed = 0;
    let mut term = 0;
    for round in 0u64..40 {
        let tail = history.tail();
        if round % 3 == 0 {
            term += 1;
        }
        history
            .record_appended(&suffix(tail, vec![noop(term), command(term), command(term)]))
            .unwrap();
        check_invariants(&history);
        let _ = history.record_committed((tail.index.as_u64() + round % 4).into());
        check_invariants(&history);
        let _ = history.record_consumed((tail.index.as_u64() + round % 3).into());
        check_invariants(&history);
        if round % 5 == 4 {
            let back = (history.committed_tail().index.as_u64() + 1).min(history.tail().index.as_u64());
            let term_there = history.get_record(back.into()).unwrap().head.prev_term;
            history
                .record_rollback(LogPosition { prev_term: term_there, index: back.into() })
                .unwrap();
            check_invariants(&history);
        }
        if round % 7 == 6 {
            let at = history.consumed_tail();
            history.record_snapshot_installed(at, config()).unwrap();
            check_invariants(&history);
        }
        assert!(history.committed_tail().index.as_u64() >= committed);
        assert!(history.consumed_tail().index.as_u64() >= consumed);
        committed = history.committed_tail().index.as_u64();
        consumed = history.consumed_tail().index.as_u64();
    }
    assert!(committed > 0);
    assert!(consumed > 0);
}
