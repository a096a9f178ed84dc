//! What a node keeps across restarts, held in memory: its ballots, the
//! snapshot of the beginning of its log, and the entries after it.
use vstd::prelude::*;
use crate::election::Ballot;
use crate::election::Term;
use crate::log::Log;
use crate::log::LogIndex;
use crate::log::LogPosition;
use crate::log::LogPrefix;
use crate::log::LogSuffix;
use crate::log::LogSuffixView;

verus! {

/// What a load of the log hands out.
pub enum Loaded {
    /// The snapshot.
    Snapshot,
    /// These entries.
    Entries(LogSuffixView),
    /// Nothing: what is kept does not answer the request.
    Nothing,
}

/// What a load of the log from `start` up to `end` hands out, where the
/// snapshot, if there is one, ends at `snapshot_tail`, and `entries` are
/// kept, if any.
///
/// With nothing kept, a load of everything hands out no entries at the
/// beginning of the log, and any other load nothing. Else the snapshot is
/// handed out where the load begins at 0 and does not go beyond it. Else,
/// of the entries, those from `start` up to `end`, or to their tail where
/// no `end` is given, where they hold that range; and nothing else.
pub open spec fn load(
    snapshot_tail: Option<LogIndex>,
    entries: Option<LogSuffixView>,
    start: LogIndex,
    end: Option<LogIndex>,
) -> Loaded {
    let from_snapshot = match snapshot_tail {
        Some(tail) => start.0 == 0 && match end {
            None => true,
            Some(e) => e.0 <= tail.0,
        },
        None => false,
    };
    if snapshot_tail is None && entries is None {
        if start.0 == 0 && end is None {
            Loaded::Entries(
                LogSuffixView {
                    head: LogPosition { prev_term: Term(0), index: LogIndex(0) },
                    entries: Seq::empty(),
                },
            )
        } else {
            Loaded::Nothing
        }
    } else if from_snapshot {
        Loaded::Snapshot
    } else {
        match (entries, end) {
            (Some(kept), None) => if kept.covers(start) {
                Loaded::Entries(kept.skipped(start))
            } else {
                Loaded::Nothing
            },
            (Some(kept), Some(e)) => if kept.covers(start) && kept.covers(e) && start.0 <= e.0 {
                Loaded::Entries(kept.sliced(start, e))
            } else {
                Loaded::Nothing
            },
            (None, _) => Loaded::Nothing,
        }
    }
}

/// What a node keeps across restarts.
#[derive(Debug)]
pub struct Storage {
    ballots: Vec<Ballot>,
    snapshotted: Option<LogPrefix>,
    rawlogs: Option<LogSuffix>,
}

impl Storage {
    /// The ballots saved, the oldest first.
    pub closed spec fn ballots(&self) -> Seq<Ballot> {
        self.ballots@
    }

    /// The snapshot kept.
    pub closed spec fn spec_snapshot(&self) -> Option<LogPrefix> {
        self.snapshotted
    }

    /// The entries kept.
    pub closed spec fn spec_rawlog(&self) -> Option<LogSuffix> {
        self.rawlogs
    }

    /// The index at which the snapshot kept ends.
    pub open spec fn snapshot_tail(&self) -> Option<LogIndex> {
        match self.spec_snapshot() {
            Some(snapshot) => Some(snapshot.tail.index),
            None => None,
        }
    }

    /// The entries kept, as what they are.
    pub open spec fn entries(&self) -> Option<LogSuffixView> {
        match self.spec_rawlog() {
            Some(kept) => Some(kept@),
            None => None,
        }
    }

    /// Whether the entries kept fit the machine.
    pub open spec fn wf(&self) -> bool {
        self.entries() matches Some(kept) ==> kept.fits()
    }

    /// Whether `suffix` can be saved: it fits the machine and, where
    /// entries are kept already, it does not begin before them, neither by
    /// term nor by index, can be merged into them, and the result fits the
    /// machine too.
    pub open spec fn accepts(&self, suffix: LogSuffixView) -> bool {
        &&& suffix.fits()
        &&& self.entries() matches Some(kept) ==> {
            &&& kept.head.prev_term.0 <= suffix.head.prev_term.0
            &&& kept.head.index.0 <= suffix.head.index.0
            &&& kept.can_merge(suffix)
            &&& kept.merged(suffix).fits()
        }
    }

    /// A storage that keeps nothing.
    pub fn new() -> (r: Self)
        ensures
            r.wf(),
            r.ballots() == Seq::<Ballot>::empty(),
            r.spec_snapshot() is None,
            r.spec_rawlog() is None,
    {
        Storage { ballots: Vec::new(), snapshotted: None, rawlogs: None }
    }

    /// The snapshot kept.
    pub fn snapshot(&self) -> (r: &Option<LogPrefix>)
        ensures
            *r == self.spec_snapshot(),
    {
        &self.snapshotted
    }

    /// The entries kept.
    pub fn rawlog(&self) -> (r: &Option<LogSuffix>)
        ensures
            *r == self.spec_rawlog(),
    {
        &self.rawlogs
    }

    /// Saves a copy of `ballot` behind the ballots saved before.
    pub fn save_ballot(&mut self, ballot: &Ballot)
        ensures
            final(self).ballots().len() == old(self).ballots().len() + 1,
            final(self).ballots().drop_last() == old(self).ballots(),
            final(self).ballots().last().term == ballot.term,
            final(self).ballots().last().voted_for@ == ballot.voted_for@,
            final(self).spec_snapshot() == old(self).spec_snapshot(),
            final(self).spec_rawlog() == old(self).spec_rawlog(),
    {
        let copy = ballot.clone();
        proof {
            assert(self.ballots@.push(copy).drop_last() =~= self.ballots@);
        }
        self.ballots.push(copy);
    }

    /// A copy of the ballot saved last, if any was saved.
    pub fn load_ballot(&self) -> (r: Option<Ballot>)
        ensures
            match r {
                Some(ballot) => self.ballots().len() > 0 && ballot.term
                    == self.ballots().last().term && ballot.voted_for@
                    == self.ballots().last().voted_for@,
                None => self.ballots().len() == 0,
            },
    {
        if self.ballots.len() == 0 {
            None
        } else {
            let last_pos: usize = self.ballots.len() - 1;
            Some(self.ballots[last_pos].clone())
        }
    }

    /// Whether `prefix` can be saved: it ends where the snapshot kept
    /// ends, or after it, by term and by index.
    pub fn can_save_log_prefix(&self, prefix: &LogPrefix) -> (r: bool)
        ensures
            r == (self.spec_snapshot() matches Some(kept) ==> prefix.tail.prev_term.0
                >= kept.tail.prev_term.0 && prefix.tail.index.0 >= kept.tail.index.0),
    {
        match &self.snapshotted {
            Some(kept) => prefix.tail.is_newer_or_equal_than(kept.tail),
            None => true,
        }
    }

    /// Keeps `prefix` as the snapshot, in place of the one kept before. It
    /// has to end where that one ends, or after it.
    pub fn save_log_prefix(&mut self, prefix: LogPrefix)
        requires
            old(self).spec_snapshot() matches Some(kept) ==> prefix.tail.prev_term.0
                >= kept.tail.prev_term.0 && prefix.tail.index.0 >= kept.tail.index.0,
        ensures
            final(self).spec_snapshot() == Some(prefix),
            final(self).spec_rawlog() == old(self).spec_rawlog(),
            final(self).ballots() == old(self).ballots(),
    {
        self.snapshotted = Some(prefix);
    }

    /// Whether `suffix` can be saved: see [`Self::accepts`].
    pub fn can_save_log_suffix(&self, suffix: &LogSuffix) -> (r: bool)
        requires
            self.wf(),
        ensures
            r == self.accepts(suffix@),
    {
        if !suffix.fits() {
            return false;
        }
        match &self.rawlogs {
            Some(kept) => suffix.head.is_newer_or_equal_than(kept.head) && kept.can_merge(suffix),
            None => true,
        }
    }

    /// Keeps the entries of `suffix`: as they are where none are kept, and
    /// else merged into those kept. [`Self::accepts`] says which entries
    /// can be saved.
    pub fn save_log_suffix(&mut self, suffix: &LogSuffix)
        requires
            old(self).wf(),
            old(self).accepts(suffix@),
        ensures
            final(self).wf(),
            final(self).entries() == Some(
                match old(self).entries() {
                    Some(kept) => kept.merged(suffix@),
                    None => suffix@,
                },
            ),
            final(self).spec_snapshot() == old(self).spec_snapshot(),
            final(self).ballots() == old(self).ballots(),
    {
        let kept = self.rawlogs.take();
        match kept {
            Some(mut rawlogs) => {
                rawlogs.merge(suffix);
                self.rawlogs = Some(rawlogs);
            },
            None => {
                self.rawlogs = Some(suffix.clone());
            },
        }
    }

    /// Loads the log from `start` up to `end`, or to its tail where no
    /// `end` is given: [`load`] says what is handed out.
    pub fn load_log(&self, start: LogIndex, end: Option<LogIndex>) -> (r: Option<Log>)
        requires
            self.wf(),
        ensures
            match load(self.snapshot_tail(), self.entries(), start, end) {
                Loaded::Snapshot => r matches Some(Log::Prefix(prefix))
                    && self.spec_snapshot() matches Some(kept) && prefix.tail == kept.tail
                    && prefix.config@ == kept.config@ && prefix.snapshot@ == kept.snapshot@,
                Loaded::Entries(entries) => r matches Some(Log::Suffix(suffix)) && suffix@
                    == entries,
                Loaded::Nothing => r is None,
            },
    {
        if self.snapshotted.is_none() && self.rawlogs.is_none() {
            if start.as_u64() == 0 && end.is_none() {
                return Some(Log::Suffix(LogSuffix::default()));
            }
            return None;
        }
        if let Some(snap) = &self.snapshotted {
            if snap.is_match(start, end) {
                return Some(Log::Prefix(snap.clone()));
            }
        }
        match end {
            None => {
                if let Some(rawlogs) = &self.rawlogs {
                    let mut rawlogs = rawlogs.clone();
                    return match rawlogs.skip_to(start) {
                        Ok(()) => Some(Log::Suffix(rawlogs)),
                        Err(_) => None,
                    };
                }
                None
            },
            Some(end) => {
                if let Some(rawlogs) = &self.rawlogs {
                    return match rawlogs.slice(start, end) {
                        Ok(sliced) => Some(Log::Suffix(sliced)),
                        Err(_) => None,
                    };
                }
                None
            },
        }
    }
}

} // verus!
