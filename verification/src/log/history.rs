//! The history of the local log: its frontiers and the places at which the
//! term or the configuration changed.
//!
//! The history holds no entries. It records how far the log was appended,
//! committed and consumed, and a list of records, each of which says from
//! which place on a term and a configuration are in force.
use std::collections::VecDeque;
use vstd::prelude::*;
use crate::cluster::ClusterConfig;
use crate::cluster::ClusterConfigView;
use crate::election::Term;
use crate::error::ErrorKind;
use crate::log::LogEntry;
use crate::log::LogEntryView;
use crate::log::LogIndex;
use crate::log::LogPosition;
use crate::log::LogPrefix;
use crate::log::LogSuffix;
use crate::log::LogSuffixView;

verus! {

/// What a record is: a place and the configuration in force from it on.
pub struct HistoryRecordView {
    pub head: LogPosition,
    pub config: ClusterConfigView,
}

/// The mark of a change: from `head` on, the term of `head` and `config`
/// are in force.
#[derive(Debug)]
pub struct HistoryRecord {
    /// The place from which the record holds.
    pub head: LogPosition,
    /// The configuration from that place on.
    pub config: ClusterConfig,
}

impl View for HistoryRecord {
    type V = HistoryRecordView;

    open spec fn view(&self) -> HistoryRecordView {
        HistoryRecordView { head: self.head, config: self.config@ }
    }
}

impl HistoryRecord {
    /// The record of `config` from `head` on.
    pub fn new(head: LogPosition, config: ClusterConfig) -> (r: Self)
        ensures
            r == (HistoryRecord { head, config }),
    {
        HistoryRecord { head, config }
    }
}

impl Clone for HistoryRecord {
    fn clone(&self) -> (r: Self)
        ensures
            r@ == self@,
    {
        HistoryRecord { head: self.head, config: self.config.clone() }
    }
}

/// The views of `records`, one for each in turn.
pub open spec fn record_views(records: Seq<HistoryRecord>) -> Seq<HistoryRecordView> {
    records.map_values(|r: HistoryRecord| r@)
}

/// The newest of `records` that begins at `index` or before it.
pub open spec fn find_record(records: Seq<HistoryRecordView>, index: LogIndex) -> Option<
    HistoryRecordView,
>
    decreases records.len(),
{
    if records.len() == 0 {
        None
    } else if records.last().head.index.0 <= index.0 {
        Some(records.last())
    } else {
        find_record(records.drop_last(), index)
    }
}

/// The place of the first of `records`, from `from` on, that begins after
/// `index`; the number of records where there is none.
pub open spec fn first_beyond(records: Seq<HistoryRecordView>, index: LogIndex, from: int) -> int
    decreases records.len() - from,
{
    if from >= records.len() {
        records.len() as int
    } else if records[from].head.index.0 > index.0 {
        from
    } else {
        first_beyond(records, index, from + 1)
    }
}

/// The records once the entry `e`, which ends at `index`, is taken in, and
/// whether it could be: a record is added where `e` brings a configuration
/// other than the last one, and where its term is greater than the last
/// one; a term smaller than the last one is refused.
#[verifier::opaque]
pub open spec fn take_in(records: Seq<HistoryRecordView>, e: LogEntryView, index: LogIndex) -> (
    Seq<HistoryRecordView>,
    bool,
) {
    let tail = LogPosition { prev_term: e.term(), index };
    let with_config = match e {
        LogEntryView::Config { config, .. } => if records.last().config != config {
            records.push(HistoryRecordView { head: tail, config })
        } else {
            records
        },
        _ => records,
    };
    let last = with_config.last();
    if tail.prev_term == last.head.prev_term {
        (with_config, true)
    } else if last.head.prev_term.0 < tail.prev_term.0 {
        (with_config.push(HistoryRecordView { head: tail, config: last.config }), true)
    } else {
        (with_config, false)
    }
}

/// The records once the entries of `suffix` from `from` up to `upto` are
/// taken in, one after the other, and whether all of them could be. The
/// first entry that is refused ends it.
pub open spec fn take_in_all(
    records: Seq<HistoryRecordView>,
    suffix: LogSuffixView,
    from: int,
    upto: int,
) -> (Seq<HistoryRecordView>, bool)
    decreases upto - from,
{
    if from >= upto {
        (records, true)
    } else {
        let (before, ok) = take_in_all(records, suffix, from, upto - 1);
        if ok {
            take_in(
                before,
                suffix.entries[upto - 1],
                LogIndex((suffix.head.index.0 + upto) as u64),
            )
        } else {
            (before, false)
        }
    }
}

/// Whether `records` begin at strictly ascending indices.
pub open spec fn indices_ascend(records: Seq<HistoryRecordView>) -> bool {
    forall|i: int, j: int|
        0 <= i < j < records.len() ==> records[i].head.index.0 < records[j].head.index.0
}

/// Whether the terms of `records` never go back.
pub open spec fn terms_ascend(records: Seq<HistoryRecordView>) -> bool {
    forall|i: int, j: int|
        0 <= i <= j < records.len() ==> records[i].head.prev_term.0
            <= records[j].head.prev_term.0
}

/// The later of two places by index; the first where the indices are
/// equal.
pub open spec fn later_of(a: LogPosition, b: LogPosition) -> LogPosition {
    if a.index.0 < b.index.0 {
        b
    } else {
        a
    }
}

/// What a history is: its three frontiers and its records.
pub struct LogHistoryView {
    pub appended_tail: LogPosition,
    pub committed_tail: LogPosition,
    pub consumed_tail: LogPosition,
    pub records: Seq<HistoryRecordView>,
}

impl LogHistoryView {
    /// The place at which the local log begins.
    pub open spec fn head(self) -> LogPosition {
        self.records[0].head
    }

    /// The newest record.
    pub open spec fn last_record(self) -> HistoryRecordView {
        self.records.last()
    }

    /// The record in force at `index`: the newest that begins at `index`
    /// or before it.
    pub open spec fn get_record(self, index: LogIndex) -> Option<HistoryRecordView> {
        find_record(self.records, index)
    }

    /// What every history keeps: it has a record, and the log does not
    /// begin after the committed tail.
    pub open spec fn valid(self) -> bool {
        &&& self.records.len() > 0
        &&& self.head().index.0 <= self.committed_tail.index.0
    }

    /// Whether the records begin at strictly ascending indices.
    pub open spec fn indices_ascend(self) -> bool {
        indices_ascend(self.records)
    }

    /// Whether the terms of the records never go back.
    pub open spec fn terms_ascend(self) -> bool {
        terms_ascend(self.records)
    }

    /// Whether the frontiers are in order: the log begins at or before the
    /// consumed tail, which is at or before the committed tail, which is
    /// at or before the appended tail.
    pub open spec fn frontiers_in_order(self) -> bool {
        &&& self.head().index.0 <= self.consumed_tail.index.0
        &&& self.consumed_tail.index.0 <= self.committed_tail.index.0
        &&& self.committed_tail.index.0 <= self.appended_tail.index.0
    }

    /// The invariant of a history in regular use: it has a record, its
    /// records begin at strictly ascending indices and their terms never
    /// go back, no record begins after the appended tail, and the
    /// frontiers are in order.
    pub open spec fn consistent(self) -> bool {
        &&& self.records.len() > 0
        &&& self.indices_ascend()
        &&& self.terms_ascend()
        &&& self.last_record().head.index.0 <= self.appended_tail.index.0
        &&& self.frontiers_in_order()
    }

    /// The number of entries at the beginning of `suffix` that the
    /// history holds already.
    pub open spec fn overlap(self, suffix: LogSuffixView) -> int {
        self.appended_tail.index.0 - suffix.head.index.0
    }

    /// Whether the terms of the entries of `suffix` that the history does
    /// not hold yet never go back, beginning with the term of the newest
    /// record.
    pub open spec fn takes_in_order(self, suffix: LogSuffixView) -> bool {
        forall|i: int|
            self.overlap(suffix) <= i < suffix.entries.len() ==> (if i == self.overlap(suffix) {
                self.last_record().head.prev_term.0
            } else {
                suffix.entries[i - 1].term().0
            }) <= (#[trigger] suffix.entries[i]).term().0
    }

    /// Whether `suffix` continues the log in the regular way: it begins at
    /// the appended tail or before it, ends at the appended tail or after
    /// it, and its terms never go back.
    pub open spec fn continued_by(self, suffix: LogSuffixView) -> bool {
        &&& suffix.fits()
        &&& suffix.head.index.0 <= self.appended_tail.index.0 <= suffix.tail().index.0
        &&& self.takes_in_order(suffix)
    }

    /// Whether a snapshot up to `new_head` replaces a beginning of the log
    /// in the regular way: what it covers is consumed already, and its
    /// term is not greater than those of the records that stay.
    pub open spec fn compacted_by(self, new_head: LogPosition) -> bool {
        &&& new_head.index.0 <= self.consumed_tail.index.0
        &&& forall|j: int|
            0 <= j < self.records.len() && new_head.index.0 < (#[trigger] self.records[j]).head.index.0
                ==> new_head.prev_term.0 <= self.records[j].head.prev_term.0
    }

    /// The history after `suffix` was appended, and how the attempt ends.
    ///
    /// Where `suffix` begins after the appended tail, nothing changes and
    /// the attempt fails with `InconsistentState`. Else the entries that
    /// the history does not hold yet are taken in one by one. Where one is
    /// refused the attempt fails with `Other`, and the records added for
    /// the entries before it stay. Else the appended tail becomes the tail
    /// of `suffix`.
    pub open spec fn record_appended(self, suffix: LogSuffixView) -> (
        LogHistoryView,
        Result<(), ErrorKind>,
    ) {
        if self.appended_tail.index.0 < suffix.head.index.0 {
            (self, Err(ErrorKind::InconsistentState))
        } else {
            let (records, ok) = take_in_all(
                self.records,
                suffix,
                self.overlap(suffix),
                suffix.entries.len() as int,
            );
            if ok {
                (LogHistoryView { appended_tail: suffix.tail(), records, ..self }, Ok(()))
            } else {
                (LogHistoryView { records, ..self }, Err(ErrorKind::Other))
            }
        }
    }

    /// The history after the committed tail moved to `index`, and how the
    /// attempt ends: it fails with `Other`, and changes nothing, where
    /// `index` lies before the committed tail or after the appended tail,
    /// or where no record is in force at `index`.
    pub open spec fn record_committed(self, index: LogIndex) -> (
        LogHistoryView,
        Result<(), ErrorKind>,
    ) {
        if self.committed_tail.index.0 <= index.0 <= self.appended_tail.index.0 {
            match self.get_record(index) {
                Some(record) => (
                    LogHistoryView {
                        committed_tail: LogPosition { prev_term: record.head.prev_term, index },
                        ..self
                    },
                    Ok(()),
                ),
                None => (self, Err(ErrorKind::Other)),
            }
        } else {
            (self, Err(ErrorKind::Other))
        }
    }

    /// The history after the consumed tail moved to `index`, and how the
    /// attempt ends: it fails with `Other`, and changes nothing, where
    /// `index` lies before the consumed tail or after the committed tail,
    /// or where no record is in force at `index`.
    pub open spec fn record_consumed(self, index: LogIndex) -> (
        LogHistoryView,
        Result<(), ErrorKind>,
    ) {
        if self.consumed_tail.index.0 <= index.0 <= self.committed_tail.index.0 {
            match self.get_record(index) {
                Some(record) => (
                    LogHistoryView {
                        consumed_tail: LogPosition { prev_term: record.head.prev_term, index },
                        ..self
                    },
                    Ok(()),
                ),
                None => (self, Err(ErrorKind::Other)),
            }
        } else {
            (self, Err(ErrorKind::Other))
        }
    }

    /// The history after the appended entries from `new_tail` on were
    /// given up, and how the attempt ends.
    ///
    /// It fails with `Other` where `new_tail` lies after the appended tail
    /// or before the committed tail, and with `InconsistentState` where
    /// the term in force at `new_tail` is not its own; nothing changes
    /// then. Else `new_tail` becomes the appended tail, and the records
    /// from the first that begins after it are dropped.
    pub open spec fn record_rollback(self, new_tail: LogPosition) -> (
        LogHistoryView,
        Result<(), ErrorKind>,
    ) {
        if !(self.committed_tail.index.0 <= new_tail.index.0 <= self.appended_tail.index.0) {
            (self, Err(ErrorKind::Other))
        } else if !(self.get_record(new_tail.index) matches Some(record)
            && record.head.prev_term == new_tail.prev_term) {
            (self, Err(ErrorKind::InconsistentState))
        } else {
            (
                LogHistoryView {
                    appended_tail: new_tail,
                    records: self.records.take(first_beyond(self.records, new_tail.index, 0)),
                    ..self
                },
                Ok(()),
            )
        }
    }

    /// The history after a snapshot up to `new_head` was installed, and
    /// how the attempt ends.
    ///
    /// It fails with `InconsistentState`, and changes nothing, where
    /// `new_head` lies before the beginning of the log. Else the records
    /// before the first that begins after `new_head` give way to one
    /// record of `config` at `new_head`, and the appended and the
    /// committed tail move up to `new_head` where they lay before it.
    pub open spec fn record_snapshot_installed(
        self,
        new_head: LogPosition,
        config: ClusterConfigView,
    ) -> (LogHistoryView, Result<(), ErrorKind>) {
        if !(self.head().index.0 <= new_head.index.0) {
            (self, Err(ErrorKind::InconsistentState))
        } else {
            (
                LogHistoryView {
                    appended_tail: later_of(self.appended_tail, new_head),
                    committed_tail: later_of(self.committed_tail, new_head),
                    consumed_tail: self.consumed_tail,
                    records: seq![HistoryRecordView { head: new_head, config }]
                        + self.records.skip(first_beyond(self.records, new_head.index, 0)),
                },
                Ok(()),
            )
        }
    }

    /// The history after a snapshot up to `tail` was loaded, and how the
    /// attempt ends: where `tail` lies after the consumed tail, it becomes
    /// the consumed tail, unless it lies after the committed tail, which
    /// fails with `InconsistentState`. Else nothing changes.
    pub open spec fn record_snapshot_loaded(self, tail: LogPosition) -> (
        LogHistoryView,
        Result<(), ErrorKind>,
    ) {
        if self.consumed_tail.index.0 < tail.index.0 {
            if tail.index.0 <= self.committed_tail.index.0 {
                (LogHistoryView { consumed_tail: tail, ..self }, Ok(()))
            } else {
                (self, Err(ErrorKind::InconsistentState))
            }
        } else {
            (self, Ok(()))
        }
    }
}

/// A record that is found is the newest that begins at `index` or before
/// it; none is found where every record begins after `index`.
pub proof fn lemma_find_record(records: Seq<HistoryRecordView>, index: LogIndex)
    ensures
        match find_record(records, index) {
            Some(record) => exists|k: int|
                {
                    &&& 0 <= k < records.len()
                    &&& #[trigger] records[k] == record
                    &&& record.head.index.0 <= index.0
                    &&& forall|j: int| k < j < records.len() ==> records[j].head.index.0 > index.0
                },
            None => forall|j: int| 0 <= j < records.len() ==> records[j].head.index.0 > index.0,
        },
    decreases records.len(),
{
    if records.len() > 0 {
        if records.last().head.index.0 <= index.0 {
            assert(records[records.len() - 1] == records.last());
        } else {
            let init = records.drop_last();
            lemma_find_record(init, index);
            match find_record(init, index) {
                Some(record) => {
                    let k = choose|k: int|
                        {
                            &&& 0 <= k < init.len()
                            &&& #[trigger] init[k] == record
                            &&& record.head.index.0 <= index.0
                            &&& forall|j: int| k < j < init.len() ==> init[j].head.index.0 > index.0
                        };
                    assert(records[k] == record);
                    assert forall|j: int| k < j < records.len() implies records[j].head.index.0
                        > index.0 by {
                        if j < init.len() {
                            assert(init[j].head.index.0 > index.0);
                        }
                    }
                },
                None => {
                    assert forall|j: int| 0 <= j < records.len() implies records[j].head.index.0
                        > index.0 by {
                        if j < init.len() {
                            assert(init[j].head.index.0 > index.0);
                        }
                    }
                },
            }
        }
    }
}

/// The place that `first_beyond` gives lies between `from` and the number
/// of records; the records from `from` up to it begin at `index` or
/// before, and the record at it, if there is one, begins after `index`.
pub proof fn lemma_first_beyond(records: Seq<HistoryRecordView>, index: LogIndex, from: int)
    requires
        0 <= from <= records.len(),
    ensures
        from <= first_beyond(records, index, from) <= records.len(),
        forall|j: int|
            from <= j < first_beyond(records, index, from) ==> records[j].head.index.0 <= index.0,
        first_beyond(records, index, from) < records.len() ==> records[first_beyond(
            records,
            index,
            from,
        )].head.index.0 > index.0,
    decreases records.len() - from,
{
    if from < records.len() && records[from].head.index.0 <= index.0 {
        lemma_first_beyond(records, index, from + 1);
    }
}

/// The history of the local log.
///
/// It keeps three frontiers, the appended, the committed and the consumed
/// tail, and the records of the changes of term and configuration since
/// the beginning of the log.
#[derive(Debug)]
pub struct LogHistory {
    appended_tail: LogPosition,
    committed_tail: LogPosition,
    consumed_tail: LogPosition,
    records: VecDeque<HistoryRecord>,
}

impl View for LogHistory {
    type V = LogHistoryView;

    closed spec fn view(&self) -> LogHistoryView {
        LogHistoryView {
            appended_tail: self.appended_tail,
            committed_tail: self.committed_tail,
            consumed_tail: self.consumed_tail,
            records: record_views(self.records@),
        }
    }
}

impl Clone for LogHistory {
    fn clone(&self) -> (r: Self)
        ensures
            r@ == self@,
    {
        let mut records: VecDeque<HistoryRecord> = VecDeque::new();
        let mut i: usize = 0;
        while i < self.records.len()
            invariant
                i <= self.records.len(),
                record_views(records@) == self@.records.take(i as int),
            decreases self.records.len() - i,
        {
            let record = self.records[i].clone();
            proof {
                assert(record@ == self@.records[i as int]);
                assert(record_views(records@.push(record)) =~= record_views(records@).push(
                    record@,
                ));
                assert(self@.records.take(i + 1) =~= self@.records.take(i as int).push(record@));
            }
            records.push_back(record);
            i += 1;
        }
        proof {
            assert(self@.records.take(self.records.len() as int) =~= self@.records);
        }
        LogHistory {
            appended_tail: self.appended_tail,
            committed_tail: self.committed_tail,
            consumed_tail: self.consumed_tail,
            records,
        }
    }
}

impl LogHistory {
    /// Whether the history is one that this type's functions make: see
    /// [`LogHistoryView::valid`].
    pub open spec fn wf(&self) -> bool {
        self@.valid()
    }

    /// The history of an empty log under `config`.
    pub fn new(config: ClusterConfig) -> (r: Self)
        ensures
            r.wf(),
            r@.consistent(),
            r@ == (LogHistoryView {
                appended_tail: LogPosition { prev_term: Term(0), index: LogIndex(0) },
                committed_tail: LogPosition { prev_term: Term(0), index: LogIndex(0) },
                consumed_tail: LogPosition { prev_term: Term(0), index: LogIndex(0) },
                records: seq![
                    HistoryRecordView {
                        head: LogPosition { prev_term: Term(0), index: LogIndex(0) },
                        config: config@,
                    },
                ],
            }),
    {
        let start = LogPosition { prev_term: Term(0), index: LogIndex(0) };
        let initial = HistoryRecord::new(start, config);
        let mut records: VecDeque<HistoryRecord> = VecDeque::new();
        records.push_back(initial);
        let r = LogHistory {
            appended_tail: start,
            committed_tail: start,
            consumed_tail: start,
            records,
        };
        proof {
            assert(r@.records =~= seq![HistoryRecordView { head: start, config: config@ }]);
        }
        r
    }

    /// The place at which the local log begins.
    pub fn head(&self) -> (r: LogPosition)
        requires
            self.wf(),
        ensures
            r == self@.head(),
    {
        self.records[0].head
    }

    /// The place after the last entry of the local log.
    pub fn tail(&self) -> (r: LogPosition)
        ensures
            r == self@.appended_tail,
    {
        self.appended_tail
    }

    /// The place after the last committed entry.
    pub fn committed_tail(&self) -> (r: LogPosition)
        ensures
            r == self@.committed_tail,
    {
        self.committed_tail
    }

    /// The place after the last entry that the state machine consumed.
    pub fn consumed_tail(&self) -> (r: LogPosition)
        ensures
            r == self@.consumed_tail,
    {
        self.consumed_tail
    }

    /// The newest configuration on record.
    pub fn config(&self) -> (r: &ClusterConfig)
        requires
            self.wf(),
        ensures
            r@ == self@.last_record().config,
    {
        &self.last_record().config
    }

    /// The newest record.
    pub fn last_record(&self) -> (r: &HistoryRecord)
        requires
            self.wf(),
        ensures
            r@ == self@.last_record(),
    {
        &self.records[self.records.len() - 1]
    }

    /// The record in force at `index`: the newest that begins at `index`
    /// or before it. `None` where every record begins after `index`: with
    /// records at ascending indices, where `index` lies before the
    /// beginning of the log.
    pub fn get_record(&self, index: LogIndex) -> (r: Option<&HistoryRecord>)
        ensures
            match r {
                Some(record) => self@.get_record(index) == Some(record@),
                None => self@.get_record(index) is None,
            },
            self.wf() && self@.indices_ascend() ==> (r is None <==> index.0
                < self@.head().index.0),
    {
        let mut i: usize = self.records.len();
        proof {
            assert(self@.records.take(i as int) =~= self@.records);
        }
        while i > 0
            invariant
                i <= self.records.len(),
                find_record(self@.records, index) == find_record(
                    self@.records.take(i as int),
                    index,
                ),
            decreases i,
        {
            i -= 1;
            let record = &self.records[i];
            proof {
                assert(self@.records.take(i + 1).drop_last() =~= self@.records.take(i as int));
                assert(self@.records.take(i + 1).last() == record@);
            }
            if record.head.index.as_u64() <= index.as_u64() {
                proof {
                    lemma_find_record(self@.records, index);
                }
                return Some(record);
            }
        }
        proof {
            lemma_find_record(self@.records, index);
            if self.wf() && self@.indices_ascend() {
                if index.0 >= self@.head().index.0 {
                    assert(self@.records[0].head.index.0 > index.0);
                }
            }
        }
        None
    }

    /// Records that `suffix` was appended to the local log.
    ///
    /// Fails with `InconsistentState`, and changes nothing, where `suffix`
    /// begins after the appended tail. Else each entry that the history
    /// does not hold yet is taken in: one that brings a configuration other
    /// than the newest on record adds a record, and so does one of a
    /// greater term than the newest record's. An entry of a smaller term
    /// fails with `Other`; the records added before it stay. Else the
    /// tail of `suffix` becomes the appended tail.
    pub fn record_appended(&mut self, suffix: &LogSuffix) -> (r: Result<(), ErrorKind>)
        requires
            old(self).wf(),
            suffix@.fits(),
        ensures
            final(self).wf(),
            (final(self)@, r) == old(self)@.record_appended(suffix@),
            final(self)@.committed_tail == old(self)@.committed_tail,
            final(self)@.consumed_tail == old(self)@.consumed_tail,
            old(self)@.consistent() && old(self)@.continued_by(suffix@) ==> r is Ok
                && final(self)@.consistent(),
    {
        proof {
            if self@.consistent() && self@.continued_by(suffix@) {
                lemma_record_appended_consistent(self@, suffix@);
            }
        }
        if self.appended_tail.index.as_u64() < suffix.head.index.as_u64() {
            return Err(ErrorKind::InconsistentState);
        }
        let n: usize = suffix.entries.len();
        let held: u64 = self.appended_tail.index.as_u64() - suffix.head.index.as_u64();
        let mut i: usize = if held >= n as u64 {
            n
        } else {
            held as usize
        };
        let ghost from = old(self)@.overlap(suffix@);
        while i < n
            invariant
                i <= n,
                n == suffix.entries.len(),
                suffix@.fits(),
                from == old(self)@.overlap(suffix@),
                from >= 0,
                i < n ==> from <= i,
                old(self).wf(),
                self.appended_tail == old(self).appended_tail,
                self.committed_tail == old(self).committed_tail,
                self.consumed_tail == old(self).consumed_tail,
                self.records@.len() > 0,
                self@.records[0] == old(self)@.records[0],
                (self@.records, true) == take_in_all(old(self)@.records, suffix@, from, i as int),
                old(self)@.consistent() && old(self)@.continued_by(suffix@)
                    ==> old(self)@.record_appended(suffix@).1 is Ok,
            decreases n - i,
        {
            let e = &suffix.entries[i];
            let index = suffix.head.index + i + 1;
            proof {
                assert(suffix@.entries[i as int] == e@);
            }
            let ghost before = self@.records;
            let taken = self.take_in(e, index);
            proof {
                assert(take_in_all(old(self)@.records, suffix@, from, i + 1) == take_in(
                    before,
                    e@,
                    index,
                ));
            }
            if !taken {
                proof {
                    lemma_take_in_all_refused(old(self)@.records, suffix@, from, i + 1, n as int);
                }
                return Err(ErrorKind::Other);
            }
            i += 1;
        }
        self.appended_tail = suffix.tail();
        Ok(())
    }

    /// Takes in the entry `e`, which ends at `index`: see [`take_in`].
    /// Returns whether it could be taken in.
    fn take_in(&mut self, e: &LogEntry, index: LogIndex) -> (r: bool)
        requires
            old(self).records@.len() > 0,
        ensures
            (final(self)@.records, r) == take_in(old(self)@.records, e@, index),
            final(self).records@.len() > 0,
            final(self)@.records[0] == old(self)@.records[0],
            final(self).appended_tail == old(self).appended_tail,
            final(self).committed_tail == old(self).committed_tail,
            final(self).consumed_tail == old(self).consumed_tail,
    {
        proof {
            reveal(take_in);
        }
        let tail = LogPosition { prev_term: e.term(), index };
        let ghost before = self@.records;
        match e {
            LogEntry::Config { config, .. } => {
                if !(self.records[self.records.len() - 1].config == *config) {
                    let record = HistoryRecord::new(tail, config.clone());
                    proof {
                        assert(record_views(self.records@.push(record)) =~= before.push(record@));
                    }
                    self.records.push_back(record);
                }
            },
            _ => {},
        }
        let ghost with_config = self@.records;
        let last = &self.records[self.records.len() - 1];
        if tail.prev_term != last.head.prev_term {
            if !(last.head.prev_term.as_u64() < tail.prev_term.as_u64()) {
                return false;
            }
            let record = HistoryRecord::new(tail, last.config.clone());
            proof {
                assert(record_views(self.records@.push(record)) =~= with_config.push(record@));
            }
            self.records.push_back(record);
        }
        true
    }

    /// Records that the committed tail moved to `new_tail_index`.
    ///
    /// Fails with `Other`, and changes nothing, where `new_tail_index`
    /// lies before the committed tail or after the appended tail.
    pub fn record_committed(&mut self, new_tail_index: LogIndex) -> (r: Result<(), ErrorKind>)
        requires
            old(self).wf(),
        ensures
            final(self).wf(),
            (final(self)@, r) == old(self)@.record_committed(new_tail_index),
            r is Ok <==> old(self)@.committed_tail.index.0 <= new_tail_index.0
                <= old(self)@.appended_tail.index.0,
            final(self)@.committed_tail.index.0 >= old(self)@.committed_tail.index.0,
            final(self)@.consumed_tail == old(self)@.consumed_tail,
            old(self)@.consistent() ==> final(self)@.consistent(),
    {
        if !(self.committed_tail.index.as_u64() <= new_tail_index.as_u64()) {
            return Err(ErrorKind::Other);
        }
        if !(new_tail_index.as_u64() <= self.appended_tail.index.as_u64()) {
            return Err(ErrorKind::Other);
        }
        proof {
            lemma_find_record(self@.records, new_tail_index);
            assert(self@.records[0].head.index.0 <= new_tail_index.0);
        }
        let prev_term = match self.get_record(new_tail_index) {
            Some(record) => record.head.prev_term,
            None => {
                return Err(ErrorKind::Other);
            },
        };
        self.committed_tail = LogPosition { prev_term, index: new_tail_index };
        Ok(())
    }

    /// Records that the state machine consumed the entries before
    /// `new_tail_index`.
    ///
    /// Fails with `Other`, and changes nothing, where `new_tail_index`
    /// lies before the consumed tail or after the committed tail, or where
    /// no record is in force at it.
    pub fn record_consumed(&mut self, new_tail_index: LogIndex) -> (r: Result<(), ErrorKind>)
        requires
            old(self).wf(),
        ensures
            final(self).wf(),
            (final(self)@, r) == old(self)@.record_consumed(new_tail_index),
            final(self)@.consumed_tail.index.0 >= old(self)@.consumed_tail.index.0,
            final(self)@.committed_tail == old(self)@.committed_tail,
            old(self)@.consistent() ==> final(self)@.consistent(),
    {
        if !(self.consumed_tail.index.as_u64() <= new_tail_index.as_u64()) {
            return Err(ErrorKind::Other);
        }
        if !(new_tail_index.as_u64() <= self.committed_tail.index.as_u64()) {
            return Err(ErrorKind::Other);
        }
        let prev_term = match self.get_record(new_tail_index) {
            Some(record) => record.head.prev_term,
            None => {
                return Err(ErrorKind::Other);
            },
        };
        self.consumed_tail = LogPosition { prev_term, index: new_tail_index };
        Ok(())
    }

    /// Records that the appended entries from `new_tail` on, none of them
    /// committed, were given up.
    ///
    /// Fails with `Other` where `new_tail` lies after the appended tail or
    /// before the committed tail, and with `InconsistentState` where the
    /// term in force at `new_tail` is not its own; nothing changes then.
    /// Else `new_tail` becomes the appended tail, and the records from the
    /// first that begins after it are dropped.
    pub fn record_rollback(&mut self, new_tail: LogPosition) -> (r: Result<(), ErrorKind>)
        requires
            old(self).wf(),
        ensures
            final(self).wf(),
            (final(self)@, r) == old(self)@.record_rollback(new_tail),
            final(self)@.committed_tail == old(self)@.committed_tail,
            final(self)@.consumed_tail == old(self)@.consumed_tail,
            old(self)@.consistent() ==> final(self)@.consistent(),
    {
        proof {
            if self@.consistent() {
                lemma_record_rollback_consistent(self@, new_tail);
            }
        }
        if !(new_tail.index.as_u64() <= self.appended_tail.index.as_u64()) {
            return Err(ErrorKind::Other);
        }
        if !(self.committed_tail.index.as_u64() <= new_tail.index.as_u64()) {
            return Err(ErrorKind::Other);
        }
        let matches = match self.get_record(new_tail.index) {
            Some(record) => record.head.prev_term == new_tail.prev_term,
            None => false,
        };
        if !matches {
            return Err(ErrorKind::InconsistentState);
        }
        self.appended_tail = new_tail;
        let mut new_len: usize = 0;
        while new_len < self.records.len() && !(self.records[new_len].head.index.as_u64()
            > new_tail.index.as_u64())
            invariant
                new_len <= self.records.len(),
                first_beyond(self@.records, new_tail.index, 0) == first_beyond(
                    self@.records,
                    new_tail.index,
                    new_len as int,
                ),
            decreases self.records.len() - new_len,
        {
            new_len += 1;
        }
        proof {
            lemma_first_beyond(self@.records, new_tail.index, 0);
            assert(self@.records[0].head.index.0 <= new_tail.index.0);
            assert(record_views(self.records@.subrange(0, new_len as int)) =~= self@.records.take(
                new_len as int,
            ));
        }
        self.records.truncate(new_len);
        Ok(())
    }

    /// Records that a snapshot of the log before `new_head`, taken under
    /// `config`, was installed.
    ///
    /// Fails with `InconsistentState`, and changes nothing, where
    /// `new_head` lies before the beginning of the log. Else the records
    /// before the first that begins after `new_head` give way to one
    /// record of `config` at `new_head`, and the appended and the
    /// committed tail move up to `new_head` where they lay before it.
    pub fn record_snapshot_installed(&mut self, new_head: LogPosition, config: ClusterConfig) -> (r:
        Result<(), ErrorKind>)
        requires
            old(self).wf(),
        ensures
            final(self).wf(),
            (final(self)@, r) == old(self)@.record_snapshot_installed(new_head, config@),
            r is Ok <==> old(self)@.head().index.0 <= new_head.index.0,
            final(self)@.committed_tail.index.0 >= old(self)@.committed_tail.index.0,
            final(self)@.consumed_tail == old(self)@.consumed_tail,
            old(self)@.consistent() && old(self)@.compacted_by(new_head)
                ==> final(self)@.consistent(),
    {
        proof {
            if self@.consistent() && self@.compacted_by(new_head) {
                lemma_record_snapshot_installed_consistent(self@, new_head, config@);
            }
        }
        if !(self.head().index.as_u64() <= new_head.index.as_u64()) {
            return Err(ErrorKind::InconsistentState);
        }
        let ghost cut = first_beyond(self@.records, new_head.index, 0);
        let ghost mut dropped: int = 0;
        proof {
            lemma_first_beyond(self@.records, new_head.index, 0);
            assert(self@.records.skip(0) =~= self@.records);
        }
        while self.records.len() > 0 && self.records[0].head.index.as_u64()
            <= new_head.index.as_u64()
            invariant
                0 <= dropped <= cut <= old(self)@.records.len(),
                cut == first_beyond(old(self)@.records, new_head.index, 0),
                forall|j: int| 0 <= j < cut ==> old(self)@.records[j].head.index.0 <= new_head.index.0,
                cut < old(self)@.records.len() ==> old(self)@.records[cut].head.index.0
                    > new_head.index.0,
                self@.records == old(self)@.records.skip(dropped),
                self.appended_tail == old(self).appended_tail,
                self.committed_tail == old(self).committed_tail,
                self.consumed_tail == old(self).consumed_tail,
            decreases self.records.len(),
        {
            proof {
                assert(self.records@.len() > 0);
                assert(self@.records.len() == old(self)@.records.len() - dropped);
                assert(self@.records[0] == self.records@[0]@);
                assert(self@.records[0] == old(self)@.records[dropped]);
                assert(dropped < cut);
                let rest = record_views(self.records@.subrange(1, self.records@.len() as int));
                assert(rest =~= old(self)@.records.skip(dropped + 1)) by {
                    assert forall|k: int| 0 <= k < rest.len() implies rest[k]
                        == old(self)@.records.skip(dropped + 1)[k] by {
                        assert(rest[k] == self@.records[k + 1]);
                        assert(self@.records[k + 1] == old(self)@.records.skip(dropped)[k + 1]);
                    }
                }
                dropped = dropped + 1;
            }
            self.records.pop_front();
        }
        proof {
            if dropped < cut {
                assert(self@.records[0] == old(self)@.records[dropped]);
            }
        }
        let record = HistoryRecord::new(new_head, config);
        proof {
            assert(record_views(seq![record] + self.records@) =~= seq![record@] + self@.records);
        }
        self.records.push_front(record);
        if self.appended_tail.index.as_u64() < new_head.index.as_u64() {
            self.appended_tail = new_head;
        }
        if self.committed_tail.index.as_u64() < new_head.index.as_u64() {
            self.committed_tail = new_head;
        }
        Ok(())
    }

    /// Records that `snapshot` was loaded: the entries that it covers
    /// count as consumed.
    ///
    /// Where the snapshot ends after the consumed tail, its tail becomes
    /// the consumed tail; but where it ends after the committed tail, this
    /// fails with `InconsistentState` and changes nothing.
    pub fn record_snapshot_loaded(&mut self, snapshot: &LogPrefix) -> (r: Result<(), ErrorKind>)
        requires
            old(self).wf(),
        ensures
            final(self).wf(),
            (final(self)@, r) == old(self)@.record_snapshot_loaded(snapshot.tail),
            final(self)@.consumed_tail.index.0 >= old(self)@.consumed_tail.index.0,
            final(self)@.committed_tail == old(self)@.committed_tail,
            old(self)@.consistent() ==> final(self)@.consistent(),
    {
        if self.consumed_tail.index.as_u64() < snapshot.tail.index.as_u64() {
            if !(snapshot.tail.index.as_u64() <= self.committed_tail.index.as_u64()) {
                return Err(ErrorKind::InconsistentState);
            }
            self.consumed_tail = snapshot.tail;
        }
        Ok(())
    }
}

/// Once an entry is refused, the entries after it change nothing.
pub proof fn lemma_take_in_all_refused(
    records: Seq<HistoryRecordView>,
    suffix: LogSuffixView,
    from: int,
    at: int,
    upto: int,
)
    requires
        from < at <= upto,
        !take_in_all(records, suffix, from, at).1,
    ensures
        take_in_all(records, suffix, from, upto) == take_in_all(records, suffix, from, at),
    decreases upto - at,
{
    if at < upto {
        lemma_take_in_all_refused(records, suffix, from, at, upto - 1);
    }
}

/// Records in order stay in order when a record that begins later, with
/// a term that is not smaller, is put behind them.
pub proof fn lemma_push_ordered(records: Seq<HistoryRecordView>, record: HistoryRecordView)
    requires
        records.len() > 0,
        indices_ascend(records),
        terms_ascend(records),
        records.last().head.index.0 < record.head.index.0,
        records.last().head.prev_term.0 <= record.head.prev_term.0,
    ensures
        indices_ascend(records.push(record)),
        terms_ascend(records.push(record)),
{
    let grown = records.push(record);
    let n = records.len() as int;
    assert forall|i: int, j: int| 0 <= i < j < grown.len() implies grown[i].head.index.0
        < grown[j].head.index.0 by {
        if j < n {
            assert(records[i].head.index.0 < records[j].head.index.0);
        } else if i < n - 1 {
            assert(records[i].head.index.0 < records[n - 1].head.index.0);
        }
    }
    assert forall|i: int, j: int| 0 <= i <= j < grown.len() implies grown[i].head.prev_term.0
        <= grown[j].head.prev_term.0 by {
        if j < n {
            assert(records[i].head.prev_term.0 <= records[j].head.prev_term.0);
        } else if i < n {
            assert(records[i].head.prev_term.0 <= records[n - 1].head.prev_term.0);
        }
    }
}

/// An entry whose term is not smaller than that of the newest record, and
/// which ends after that record begins, is taken in, and keeps the records
/// in order: the first record stays, and the newest one carries the term
/// of the entry and begins no later than the entry ends.
pub proof fn lemma_take_in_ordered(
    records: Seq<HistoryRecordView>,
    e: LogEntryView,
    index: LogIndex,
)
    requires
        records.len() > 0,
        indices_ascend(records),
        terms_ascend(records),
        records.last().head.index.0 < index.0,
        records.last().head.prev_term.0 <= e.term().0,
    ensures
        take_in(records, e, index).1,
        take_in(records, e, index).0.len() > 0,
        take_in(records, e, index).0[0] == records[0],
        indices_ascend(take_in(records, e, index).0),
        terms_ascend(take_in(records, e, index).0),
        take_in(records, e, index).0.last().head.index.0 <= index.0,
        take_in(records, e, index).0.last().head.prev_term == e.term(),
{
    reveal(take_in);
    let tail = LogPosition { prev_term: e.term(), index };
    match e {
        LogEntryView::Config { config, .. } => {
            if records.last().config != config {
                lemma_push_ordered(records, HistoryRecordView { head: tail, config });
            } else if tail.prev_term != records.last().head.prev_term {
                lemma_push_ordered(
                    records,
                    HistoryRecordView { head: tail, config: records.last().config },
                );
            }
        },
        _ => {
            if tail.prev_term != records.last().head.prev_term {
                lemma_push_ordered(
                    records,
                    HistoryRecordView { head: tail, config: records.last().config },
                );
            }
        },
    }
}

/// Taking in entries whose terms never go back keeps the records in
/// order: none is refused, the first record stays, indices ascend strictly
/// and terms never go back, and the newest record carries the term of the
/// last entry taken in and begins no later than that entry ends.
pub proof fn lemma_take_in_all_ordered(h: LogHistoryView, suffix: LogSuffixView, upto: int)
    requires
        h.consistent(),
        h.continued_by(suffix),
        h.overlap(suffix) <= upto <= suffix.entries.len(),
    ensures
        take_in_all(h.records, suffix, h.overlap(suffix), upto).1,
        take_in_all(h.records, suffix, h.overlap(suffix), upto).0.len() > 0,
        take_in_all(h.records, suffix, h.overlap(suffix), upto).0[0] == h.records[0],
        indices_ascend(take_in_all(h.records, suffix, h.overlap(suffix), upto).0),
        terms_ascend(take_in_all(h.records, suffix, h.overlap(suffix), upto).0),
        take_in_all(h.records, suffix, h.overlap(suffix), upto).0.last().head.index.0
            <= suffix.head.index.0 + upto,
        take_in_all(h.records, suffix, h.overlap(suffix), upto).0.last().head.prev_term == if upto
            == h.overlap(suffix) {
            h.last_record().head.prev_term
        } else {
            suffix.entries[upto - 1].term()
        },
    decreases upto - h.overlap(suffix),
{
    let from = h.overlap(suffix);
    if upto > from {
        lemma_take_in_all_ordered(h, suffix, upto - 1);
        let before = take_in_all(h.records, suffix, from, upto - 1).0;
        let e = suffix.entries[upto - 1];
        let index = LogIndex((suffix.head.index.0 + upto) as u64);
        assert(before.last().head.prev_term.0 <= e.term().0);
        lemma_take_in_ordered(before, e, index);
    }
}

/// A record that begins after `index` and is put behind the others does
/// not change which record is in force at `index`.
pub proof fn lemma_find_record_push(
    records: Seq<HistoryRecordView>,
    record: HistoryRecordView,
    index: LogIndex,
)
    requires
        record.head.index.0 > index.0,
    ensures
        find_record(records.push(record), index) == find_record(records, index),
{
    assert(records.push(record).drop_last() =~= records);
}

/// Taking in an entry that ends at `index` changes no record in force
/// before `index`, and puts the term of the entry on record at `index`.
pub proof fn lemma_take_in_on_record(
    records: Seq<HistoryRecordView>,
    e: LogEntryView,
    index: LogIndex,
    earlier: LogIndex,
)
    requires
        records.len() > 0,
        indices_ascend(records),
        terms_ascend(records),
        records.last().head.index.0 < index.0,
        records.last().head.prev_term.0 <= e.term().0,
        earlier.0 < index.0,
    ensures
        find_record(take_in(records, e, index).0, earlier) == find_record(records, earlier),
        find_record(take_in(records, e, index).0, index) matches Some(record)
            && record.head.prev_term == e.term(),
{
    reveal(take_in);
    lemma_take_in_ordered(records, e, index);
    let taken = take_in(records, e, index).0;
    if taken != records {
        let record = taken.last();
        assert(taken.drop_last() =~= records);
        assert(taken =~= records.push(record));
        lemma_find_record_push(records, record, earlier);
    }
}

/// After the entries of a suffix that continues the log in the regular
/// way are taken in, the history has the term of each of them on record at
/// the place where the entry ends.
#[verifier::spinoff_prover]
#[verifier::rlimit(40)]
pub proof fn lemma_take_in_all_on_record(
    h: LogHistoryView,
    suffix: LogSuffixView,
    upto: int,
    i: int,
)
    requires
        h.consistent(),
        h.continued_by(suffix),
        h.overlap(suffix) <= i < upto <= suffix.entries.len(),
    ensures
        find_record(
            take_in_all(h.records, suffix, h.overlap(suffix), upto).0,
            LogIndex((suffix.head.index.0 + i + 1) as u64),
        ) matches Some(record) && record.head.prev_term == suffix.entries[i].term(),
    decreases upto - h.overlap(suffix),
{
    let from = h.overlap(suffix);
    let at = LogIndex((suffix.head.index.0 + i + 1) as u64);
    let before = take_in_all(h.records, suffix, from, upto - 1);
    let e = suffix.entries[upto - 1];
    let index = LogIndex((suffix.head.index.0 + upto) as u64);
    assert(before.1 && before.0.len() > 0 && indices_ascend(before.0) && terms_ascend(before.0)
        && before.0.last().head.index.0 < index.0 && before.0.last().head.prev_term.0
        <= e.term().0) by {
        lemma_take_in_all_ordered(h, suffix, upto - 1);
    }
    assert(take_in_all(h.records, suffix, from, upto) == take_in(before.0, e, index));
    if i < upto - 1 {
        assert(find_record(before.0, at) matches Some(record) && record.head.prev_term
            == suffix.entries[i].term()) by {
            lemma_take_in_all_on_record(h, suffix, upto - 1, i);
        }
        lemma_take_in_on_record(before.0, e, index, at);
    } else {
        lemma_take_in_on_record(before.0, e, index, LogIndex(0));
    }
}

/// After a suffix that continues the log in the regular way is appended,
/// the history has the term of each entry that it took in on record at the
/// place where the entry ends.
pub proof fn lemma_record_appended_on_record(h: LogHistoryView, suffix: LogSuffixView, i: int)
    requires
        h.consistent(),
        h.continued_by(suffix),
        h.overlap(suffix) <= i < suffix.entries.len(),
    ensures
        h.record_appended(suffix).0.get_record(LogIndex((suffix.head.index.0 + i + 1) as u64))
            matches Some(record) && record.head.prev_term == suffix.entries[i].term(),
{
    lemma_take_in_all_ordered(h, suffix, suffix.entries.len() as int);
    lemma_take_in_all_on_record(h, suffix, suffix.entries.len() as int, i);
}

/// A rollback changes no record in force at the new tail or before it.
pub proof fn lemma_record_rollback_on_record(
    h: LogHistoryView,
    new_tail: LogPosition,
    index: LogIndex,
)
    requires
        h.consistent(),
        h.record_rollback(new_tail).1 is Ok,
        index.0 <= new_tail.index.0,
    ensures
        h.record_rollback(new_tail).0.get_record(index) == h.get_record(index),
{
    let cut = first_beyond(h.records, new_tail.index, 0);
    lemma_first_beyond(h.records, new_tail.index, 0);
    lemma_find_record_take(h.records, cut, index);
}

/// Among records at ascending indices, those from `cut` on, the first of
/// which begins after `index`, do not change which record is in force at
/// `index`.
pub proof fn lemma_find_record_take(records: Seq<HistoryRecordView>, cut: int, index: LogIndex)
    requires
        indices_ascend(records),
        0 <= cut <= records.len(),
        cut < records.len() ==> records[cut].head.index.0 > index.0,
    ensures
        find_record(records.take(cut), index) == find_record(records, index),
    decreases records.len() - cut,
{
    if cut < records.len() {
        let init = records.drop_last();
        assert(records.last().head.index.0 > index.0) by {
            if cut < records.len() - 1 {
                assert(records[cut].head.index.0 < records[records.len() - 1].head.index.0);
            }
        }
        assert(indices_ascend(init));
        if cut < init.len() {
            assert(init[cut] == records[cut]);
        }
        lemma_find_record_take(init, cut, index);
        assert(init.take(cut) =~= records.take(cut));
    } else {
        assert(records.take(cut) =~= records);
    }
}

/// A suffix that continues the log in the regular way is appended without
/// error, and keeps a consistent history consistent.
pub proof fn lemma_record_appended_consistent(h: LogHistoryView, suffix: LogSuffixView)
    requires
        h.consistent(),
        h.continued_by(suffix),
    ensures
        h.record_appended(suffix).1 is Ok,
        h.record_appended(suffix).0.consistent(),
        h.record_appended(suffix).0.appended_tail == suffix.tail(),
{
    lemma_take_in_all_ordered(h, suffix, suffix.entries.len() as int);
}

/// Moving the committed tail keeps a consistent history consistent.
pub proof fn lemma_record_committed_consistent(h: LogHistoryView, index: LogIndex)
    requires
        h.consistent(),
    ensures
        h.record_committed(index).0.consistent(),
{
}

/// Moving the consumed tail keeps a consistent history consistent.
pub proof fn lemma_record_consumed_consistent(h: LogHistoryView, index: LogIndex)
    requires
        h.consistent(),
    ensures
        h.record_consumed(index).0.consistent(),
{
}

/// A rollback keeps a consistent history consistent, and keeps just the
/// records that begin at the new tail or before it.
pub proof fn lemma_record_rollback_consistent(h: LogHistoryView, new_tail: LogPosition)
    requires
        h.consistent(),
    ensures
        h.record_rollback(new_tail).0.consistent(),
        h.record_rollback(new_tail).1 is Ok ==> h.record_rollback(new_tail).0.records
            == h.records.filter(|r: HistoryRecordView| r.head.index.0 <= new_tail.index.0),
{
    let cut = first_beyond(h.records, new_tail.index, 0);
    lemma_first_beyond(h.records, new_tail.index, 0);
    if h.record_rollback(new_tail).1 is Ok {
        let kept = h.records.take(cut);
        assert(kept.len() > 0) by {
            assert(h.records[0].head.index.0 <= new_tail.index.0);
        }
        assert(kept.last() == h.records[cut - 1]);
        lemma_filter_at_cut(h, new_tail.index, cut);
    }
}

/// Among records at ascending indices, those that begin at `index` or
/// before it are those before the first that begins after it.
pub proof fn lemma_filter_at_cut(h: LogHistoryView, index: LogIndex, cut: int)
    requires
        h.indices_ascend(),
        cut == first_beyond(h.records, index, 0),
    ensures
        h.records.filter(|r: HistoryRecordView| r.head.index.0 <= index.0) == h.records.take(cut),
        h.records.filter(|r: HistoryRecordView| !(r.head.index.0 <= index.0)) == h.records.skip(cut),
{
    lemma_first_beyond(h.records, index, 0);
    let within = |r: HistoryRecordView| r.head.index.0 <= index.0;
    let beyond = |r: HistoryRecordView| !(r.head.index.0 <= index.0);
    let low = h.records.take(cut);
    let high = h.records.skip(cut);
    assert(h.records =~= low + high);
    assert forall|j: int| 0 <= j < high.len() implies !within(#[trigger] high[j]) by {
        if cut < h.records.len() {
            assert(h.records[cut].head.index.0 > index.0);
            if j > 0 {
                assert(h.records[cut].head.index.0 < h.records[cut + j].head.index.0);
            }
        }
    }
    assert forall|j: int| 0 <= j < low.len() implies within(#[trigger] low[j]) by {
        assert(h.records[j].head.index.0 <= index.0);
    }
    lemma_filter_all(low, within);
    lemma_filter_none(high, within);
    lemma_filter_all(high, beyond);
    lemma_filter_none(low, beyond);
    Seq::filter_distributes_over_add(low, high, within);
    Seq::filter_distributes_over_add(low, high, beyond);
    assert(low.filter(within) + high.filter(within) =~= low);
    assert(low.filter(beyond) + high.filter(beyond) =~= high);
}

/// A filter keeps a sequence whose elements all pass it.
pub proof fn lemma_filter_all(s: Seq<HistoryRecordView>, pred: spec_fn(HistoryRecordView) -> bool)
    requires
        forall|j: int| 0 <= j < s.len() ==> pred(#[trigger] s[j]),
    ensures
        s.filter(pred) == s,
    decreases s.len(),
{
    reveal(Seq::filter);
    if s.len() > 0 {
        lemma_filter_all(s.drop_last(), pred);
        assert(s.drop_last().push(s.last()) =~= s);
    }
}

/// A filter leaves nothing of a sequence none of whose elements pass it.
pub proof fn lemma_filter_none(s: Seq<HistoryRecordView>, pred: spec_fn(HistoryRecordView) -> bool)
    requires
        forall|j: int| 0 <= j < s.len() ==> !pred(#[trigger] s[j]),
    ensures
        s.filter(pred) == Seq::<HistoryRecordView>::empty(),
    decreases s.len(),
{
    reveal(Seq::filter);
    if s.len() > 0 {
        lemma_filter_none(s.drop_last(), pred);
    }
}

/// A snapshot that replaces a beginning of the log in the regular way
/// keeps a consistent history consistent, and drops just the records that
/// begin at its end or before it.
pub proof fn lemma_record_snapshot_installed_consistent(
    h: LogHistoryView,
    new_head: LogPosition,
    config: ClusterConfigView,
)
    requires
        h.consistent(),
        h.compacted_by(new_head),
    ensures
        h.record_snapshot_installed(new_head, config).0.consistent(),
        h.record_snapshot_installed(new_head, config).1 is Ok ==> h.record_snapshot_installed(
            new_head,
            config,
        ).0.records == seq![HistoryRecordView { head: new_head, config }] + h.records.filter(
            |r: HistoryRecordView| !(r.head.index.0 <= new_head.index.0),
        ),
{
    let cut = first_beyond(h.records, new_head.index, 0);
    lemma_first_beyond(h.records, new_head.index, 0);
    let made = h.record_snapshot_installed(new_head, config);
    if made.1 is Ok {
        lemma_filter_at_cut(h, new_head.index, cut);
        let rest = h.records.skip(cut);
        let records = made.0.records;
        assert(records[0].head == new_head);
        assert forall|i: int, j: int| 0 <= i < j < records.len() implies records[i].head.index.0
            < records[j].head.index.0 by {
            assert(records[j] == h.records[cut + j - 1]);
            if i > 0 {
                assert(records[i] == h.records[cut + i - 1]);
            } else if j > 1 {
                assert(h.records[cut].head.index.0 < h.records[cut + j - 1].head.index.0);
            }
        }
        assert forall|i: int, j: int| 0 <= i <= j < records.len() implies records[i].head.prev_term.0
            <= records[j].head.prev_term.0 by {
            if j > 0 {
                assert(records[j] == h.records[cut + j - 1]);
                if i > 0 {
                    assert(records[i] == h.records[cut + i - 1]);
                }
            }
        }
        if rest.len() > 0 {
            assert(records.last() == h.records.last());
        }
    }
}

/// Loading a snapshot keeps a consistent history consistent.
pub proof fn lemma_record_snapshot_loaded_consistent(h: LogHistoryView, tail: LogPosition)
    requires
        h.consistent(),
    ensures
        h.record_snapshot_loaded(tail).0.consistent(),
{
}

/// Something that is recorded in a history.
pub enum HistoryEvent {
    /// A suffix was appended to the log.
    Appended(LogSuffixView),
    /// The committed tail moved to an index.
    Committed(LogIndex),
    /// The consumed tail moved to an index.
    Consumed(LogIndex),
    /// The appended entries from a place on were given up.
    RolledBack(LogPosition),
    /// A snapshot up to a place, taken under a configuration, was
    /// installed.
    SnapshotInstalled(LogPosition, ClusterConfigView),
    /// A snapshot up to a place was loaded.
    SnapshotLoaded(LogPosition),
}

impl LogHistoryView {
    /// The history after `event` was recorded, and how the attempt ends.
    pub open spec fn record(self, event: HistoryEvent) -> (LogHistoryView, Result<(), ErrorKind>) {
        match event {
            HistoryEvent::Appended(suffix) => self.record_appended(suffix),
            HistoryEvent::Committed(index) => self.record_committed(index),
            HistoryEvent::Consumed(index) => self.record_consumed(index),
            HistoryEvent::RolledBack(new_tail) => self.record_rollback(new_tail),
            HistoryEvent::SnapshotInstalled(new_head, config) => self.record_snapshot_installed(
                new_head,
                config,
            ),
            HistoryEvent::SnapshotLoaded(tail) => self.record_snapshot_loaded(tail),
        }
    }

    /// Whether `event` is one of regular use: a suffix that continues the
    /// log, a snapshot that replaces a beginning of the log that is
    /// consumed, or anything else.
    pub open spec fn regular(self, event: HistoryEvent) -> bool {
        match event {
            HistoryEvent::Appended(suffix) => self.continued_by(suffix),
            HistoryEvent::SnapshotInstalled(new_head, _) => self.compacted_by(new_head),
            _ => true,
        }
    }

    /// The history after `events` were recorded one after the other,
    /// those that fail included.
    pub open spec fn record_all(self, events: Seq<HistoryEvent>) -> LogHistoryView
        decreases events.len(),
    {
        if events.len() == 0 {
            self
        } else {
            self.record_all(events.drop_last()).record(events.last()).0
        }
    }

    /// Whether each of `events` is one of regular use at the time it is
    /// recorded.
    pub open spec fn all_regular(self, events: Seq<HistoryEvent>) -> bool
        decreases events.len(),
    {
        if events.len() == 0 {
            true
        } else {
            self.all_regular(events.drop_last()) && self.record_all(events.drop_last()).regular(
                events.last(),
            )
        }
    }
}

/// Whatever is recorded, whether it succeeds or fails, the history keeps a
/// record, the log does not begin after the committed tail, and neither
/// the committed nor the consumed tail moves back.
pub proof fn lemma_record_never_retreats(h: LogHistoryView, event: HistoryEvent)
    requires
        h.valid(),
    ensures
        h.record(event).0.valid(),
        h.record(event).0.committed_tail.index.0 >= h.committed_tail.index.0,
        h.record(event).0.consumed_tail.index.0 >= h.consumed_tail.index.0,
{
    match event {
        HistoryEvent::Appended(suffix) => {
            lemma_take_in_all_first(
                h.records,
                suffix,
                h.overlap(suffix),
                suffix.entries.len() as int,
            );
        },
        HistoryEvent::RolledBack(new_tail) => {
            lemma_first_beyond(h.records, new_tail.index, 0);
            if h.record(event).1 is Ok {
                assert(h.records[0].head.index.0 <= new_tail.index.0);
            }
        },
        _ => {},
    }
}

/// Taking in entries drops no record and keeps the first.
pub proof fn lemma_take_in_all_first(
    records: Seq<HistoryRecordView>,
    suffix: LogSuffixView,
    from: int,
    upto: int,
)
    requires
        records.len() > 0,
    ensures
        take_in_all(records, suffix, from, upto).0.len() >= records.len(),
        take_in_all(records, suffix, from, upto).0[0] == records[0],
    decreases upto - from,
{
    reveal(take_in);
    if from < upto {
        lemma_take_in_all_first(records, suffix, from, upto - 1);
    }
}

/// An event of regular use keeps a consistent history consistent.
pub proof fn lemma_record_consistent(h: LogHistoryView, event: HistoryEvent)
    requires
        h.consistent(),
        h.regular(event),
    ensures
        h.record(event).0.consistent(),
{
    match event {
        HistoryEvent::Appended(suffix) => lemma_record_appended_consistent(h, suffix),
        HistoryEvent::Committed(index) => lemma_record_committed_consistent(h, index),
        HistoryEvent::Consumed(index) => lemma_record_consumed_consistent(h, index),
        HistoryEvent::RolledBack(new_tail) => lemma_record_rollback_consistent(h, new_tail),
        HistoryEvent::SnapshotInstalled(new_head, config) => {
            lemma_record_snapshot_installed_consistent(h, new_head, config)
        },
        HistoryEvent::SnapshotLoaded(tail) => lemma_record_snapshot_loaded_consistent(h, tail),
    }
}

/// A consistent history stays consistent through any sequence of events
/// of regular use, in whatever order they come.
pub proof fn lemma_history_stays_consistent(h: LogHistoryView, events: Seq<HistoryEvent>)
    requires
        h.consistent(),
        h.all_regular(events),
    ensures
        h.record_all(events).consistent(),
    decreases events.len(),
{
    if events.len() > 0 {
        lemma_history_stays_consistent(h, events.drop_last());
        lemma_record_consistent(h.record_all(events.drop_last()), events.last());
    }
}

/// Through any sequence of events, of regular use or not, neither the
/// committed nor the consumed tail ever moves back.
pub proof fn lemma_history_never_retreats(h: LogHistoryView, events: Seq<HistoryEvent>)
    requires
        h.valid(),
    ensures
        h.record_all(events).valid(),
        h.record_all(events).committed_tail.index.0 >= h.committed_tail.index.0,
        h.record_all(events).consumed_tail.index.0 >= h.consumed_tail.index.0,
    decreases events.len(),
{
    if events.len() > 0 {
        lemma_history_never_retreats(h, events.drop_last());
        lemma_record_never_retreats(h.record_all(events.drop_last()), events.last());
    }
}

} // verus!
