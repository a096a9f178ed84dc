//! The local log: entries, positions, and the two forms in which a stretch
//! of the log is held, a snapshot of its beginning and a run of entries.
use vstd::prelude::*;
use vstd::std_specs::cmp::PartialEqSpecImpl;
use vstd::std_specs::convert::FromSpecImpl;
use vstd::std_specs::ops::AddSpecImpl;
use vstd::std_specs::ops::SubSpecImpl;
use crate::cluster::ClusterConfig;
use crate::cluster::ClusterConfigView;
use crate::election::Term;
use crate::error::ErrorKind;

pub mod history;

pub use self::history::HistoryRecord;
pub use self::history::LogHistory;

verus! {

/// The index of an entry in the log. Index 0 is the place before the first
/// entry.
#[derive(Debug, Clone, Copy, PartialEq, Eq, Hash, PartialOrd, Ord, Structural)]
pub struct LogIndex(pub u64);

impl LogIndex {
    /// The index with the given value.
    pub fn new(index: u64) -> (r: Self)
        ensures
            r == LogIndex(index),
    {
        LogIndex(index)
    }

    /// The value of the index.
    pub fn as_u64(self) -> (r: u64)
        ensures
            r == self.0,
    {
        self.0
    }
}

impl From<u64> for LogIndex {
    fn from(f: u64) -> (r: Self) {
        LogIndex::new(f)
    }
}

impl FromSpecImpl<u64> for LogIndex {
    open spec fn obeys_from_spec() -> bool {
        true
    }

    open spec fn from_spec(f: u64) -> Self {
        LogIndex(f)
    }
}

impl Default for LogIndex {
    fn default() -> (r: Self)
        ensures
            r == LogIndex(0),
    {
        LogIndex(0)
    }
}

impl std::ops::Add<usize> for LogIndex {
    type Output = LogIndex;

    fn add(self, rhs: usize) -> (r: LogIndex) {
        LogIndex(self.0 + rhs as u64)
    }
}

impl AddSpecImpl<usize> for LogIndex {
    open spec fn obeys_add_spec() -> bool {
        true
    }

    open spec fn add_req(self, rhs: usize) -> bool {
        self.0 + rhs <= u64::MAX
    }

    open spec fn add_spec(self, rhs: usize) -> LogIndex {
        LogIndex((self.0 + rhs) as u64)
    }
}

impl std::ops::AddAssign<usize> for LogIndex {
    fn add_assign(&mut self, rhs: usize)
        requires
            old(self).0 + rhs <= u64::MAX,
        ensures
            final(self).0 == old(self).0 + rhs,
    {
        self.0 = self.0 + rhs as u64;
    }
}

impl std::ops::Sub<LogIndex> for LogIndex {
    type Output = usize;

    fn sub(self, rhs: LogIndex) -> (r: usize) {
        (self.0 - rhs.0) as usize
    }
}

impl SubSpecImpl<LogIndex> for LogIndex {
    open spec fn obeys_sub_spec() -> bool {
        true
    }

    open spec fn sub_req(self, rhs: LogIndex) -> bool {
        rhs.0 <= self.0 && self.0 - rhs.0 <= usize::MAX
    }

    open spec fn sub_spec(self, rhs: LogIndex) -> usize {
        (self.0 - rhs.0) as usize
    }
}

impl std::ops::Sub<usize> for LogIndex {
    type Output = LogIndex;

    fn sub(self, rhs: usize) -> (r: LogIndex) {
        LogIndex(self.0 - rhs as u64)
    }
}

impl SubSpecImpl<usize> for LogIndex {
    open spec fn obeys_sub_spec() -> bool {
        true
    }

    open spec fn sub_req(self, rhs: usize) -> bool {
        rhs <= self.0
    }

    open spec fn sub_spec(self, rhs: usize) -> LogIndex {
        LogIndex((self.0 - rhs) as u64)
    }
}

impl std::ops::SubAssign<usize> for LogIndex {
    fn sub_assign(&mut self, rhs: usize)
        requires
            rhs <= old(self).0,
        ensures
            final(self).0 == old(self).0 - rhs,
    {
        self.0 = self.0 - rhs as u64;
    }
}

/// A place in the log: the boundary before the entry at `index`, together
/// with the term of the entry just before it.
#[derive(Debug, Clone, Copy, PartialEq, Eq, Hash, Structural)]
pub struct LogPosition {
    /// The term of the entry before `index`; 0 where there is none.
    pub prev_term: Term,
    /// The index of the place.
    pub index: LogIndex,
}

impl LogPosition {
    /// Whether `self` lies at `other` or after it: neither its term nor
    /// its index is smaller. Places on logs that have parted may compare
    /// in neither direction.
    pub fn is_newer_or_equal_than(&self, other: LogPosition) -> (r: bool)
        ensures
            r == (self.prev_term.0 >= other.prev_term.0 && self.index.0 >= other.index.0),
    {
        self.prev_term.as_u64() >= other.prev_term.as_u64() && self.index.as_u64()
            >= other.index.as_u64()
    }
}

impl Default for LogPosition {
    fn default() -> (r: Self)
        ensures
            r == (LogPosition { prev_term: Term(0), index: LogIndex(0) }),
    {
        LogPosition { prev_term: Term(0), index: LogIndex(0) }
    }
}

/// The identity of a proposal: the term in which it was made and the index
/// of the entry that holds it.
#[derive(Debug, Clone, Copy, PartialEq, Eq, Hash, Structural)]
pub struct ProposalId {
    /// The term in which the proposal was made.
    pub term: Term,
    /// The index of the entry that holds the proposal.
    pub index: LogIndex,
}

/// What an entry is: its term and what it carries.
pub enum LogEntryView {
    Noop { term: Term },
    Config { term: Term, config: ClusterConfigView },
    Command { term: Term, command: Seq<u8> },
}

impl LogEntryView {
    /// The term in which the entry was made.
    pub open spec fn term(self) -> Term {
        match self {
            LogEntryView::Noop { term } => term,
            LogEntryView::Config { term, .. } => term,
            LogEntryView::Command { term, .. } => term,
        }
    }
}

/// An entry of the log.
#[derive(Debug)]
pub enum LogEntry {
    /// Marks the beginning of a term.
    Noop { term: Term },
    /// Carries a configuration of the cluster.
    Config { term: Term, config: ClusterConfig },
    /// Carries a command for the state machine.
    Command { term: Term, command: Vec<u8> },
}

impl View for LogEntry {
    type V = LogEntryView;

    open spec fn view(&self) -> LogEntryView {
        match *self {
            LogEntry::Noop { term } => LogEntryView::Noop { term },
            LogEntry::Config { term, config } => LogEntryView::Config { term, config: config@ },
            LogEntry::Command { term, command } => LogEntryView::Command { term, command: command@ },
        }
    }
}

impl LogEntry {
    /// The term in which the entry was made.
    pub fn term(&self) -> (r: Term)
        ensures
            r == self@.term(),
    {
        match *self {
            LogEntry::Noop { term } => term,
            LogEntry::Config { term, .. } => term,
            LogEntry::Command { term, .. } => term,
        }
    }
}

impl Clone for LogEntry {
    fn clone(&self) -> (r: Self)
        ensures
            r@ == self@,
    {
        match self {
            LogEntry::Noop { term } => LogEntry::Noop { term: *term },
            LogEntry::Config { term, config } => LogEntry::Config {
                term: *term,
                config: config.clone(),
            },
            LogEntry::Command { term, command } => {
                let copy = copy_bytes(command);
                LogEntry::Command { term: *term, command: copy }
            },
        }
    }
}

impl PartialEq for LogEntry {
    fn eq(&self, other: &Self) -> (r: bool) {
        match (self, other) {
            (LogEntry::Noop { term: a }, LogEntry::Noop { term: b }) => *a == *b,
            (
                LogEntry::Config { term: a, config: x },
                LogEntry::Config { term: b, config: y },
            ) => *a == *b && *x == *y,
            (
                LogEntry::Command { term: a, command: x },
                LogEntry::Command { term: b, command: y },
            ) => *a == *b && same_bytes(x, y),
            _ => false,
        }
    }
}

impl PartialEqSpecImpl for LogEntry {
    open spec fn obeys_eq_spec() -> bool {
        true
    }

    /// Two entries are equal where they have the same term and carry the
    /// same.
    open spec fn eq_spec(&self, other: &Self) -> bool {
        self@ == other@
    }
}

impl Eq for LogEntry {

}

/// Whether `a` and `b` hold the same bytes.
pub fn same_bytes(a: &Vec<u8>, b: &Vec<u8>) -> (r: bool)
    ensures
        r == (a@ == b@),
{
    if a.len() != b.len() {
        return false;
    }
    let mut i: usize = 0;
    while i < a.len()
        invariant
            i <= a.len(),
            a.len() == b.len(),
            a@.take(i as int) == b@.take(i as int),
        decreases a.len() - i,
    {
        if a[i] != b[i] {
            return false;
        }
        proof {
            assert(a@.take(i + 1) =~= a@.take(i as int).push(a@[i as int]));
            assert(b@.take(i + 1) =~= b@.take(i as int).push(b@[i as int]));
        }
        i += 1;
    }
    proof {
        assert(a@.take(a.len() as int) =~= a@);
        assert(b@.take(a.len() as int) =~= b@);
    }
    true
}

/// A copy of `bytes`.
pub fn copy_bytes(bytes: &Vec<u8>) -> (r: Vec<u8>)
    ensures
        r@ == bytes@,
{
    let mut r: Vec<u8> = Vec::new();
    let mut i: usize = 0;
    while i < bytes.len()
        invariant
            i <= bytes.len(),
            r@ == bytes@.take(i as int),
        decreases bytes.len() - i,
    {
        r.push(bytes[i]);
        proof {
            assert(bytes@.take(i + 1) =~= bytes@.take(i as int).push(bytes@[i as int]));
        }
        i += 1;
    }
    proof {
        assert(bytes@.take(bytes.len() as int) =~= bytes@);
    }
    r
}

/// The views of `entries`, one for each in turn.
pub open spec fn views_of(entries: Seq<LogEntry>) -> Seq<LogEntryView> {
    entries.map_values(|e: LogEntry| e@)
}

/// What a run of entries is: the place before its first entry, and its
/// entries.
pub struct LogSuffixView {
    pub head: LogPosition,
    pub entries: Seq<LogEntryView>,
}

impl LogSuffixView {
    /// Whether the run fits the machine: the index after the last entry
    /// is still an index, and one more than the number of entries is
    /// still a size.
    pub open spec fn fits(self) -> bool {
        &&& self.head.index.0 + self.entries.len() <= u64::MAX
        &&& self.entries.len() < usize::MAX
    }

    /// The place after `offset` entries: the head for none, else the term
    /// of the entry before the place and the index that many past the head.
    pub open spec fn position_at(self, offset: int) -> LogPosition {
        if offset == 0 {
            self.head
        } else {
            LogPosition {
                prev_term: self.entries[offset - 1].term(),
                index: LogIndex((self.head.index.0 + offset) as u64),
            }
        }
    }

    /// The place after the last entry.
    pub open spec fn tail(self) -> LogPosition {
        self.position_at(self.entries.len() as int)
    }

    /// The places of the run: the head, then the place after each entry.
    pub open spec fn positions(self) -> Seq<LogPosition> {
        Seq::new(self.entries.len() + 1, |i: int| self.position_at(i))
    }

    /// Whether `index` lies between the head and the tail, both included.
    pub open spec fn covers(self, index: LogIndex) -> bool {
        self.head.index.0 <= index.0 <= self.head.index.0 + self.entries.len()
    }

    /// The run from `new_head` on.
    pub open spec fn skipped(self, new_head: LogIndex) -> LogSuffixView {
        let count = new_head.0 - self.head.index.0;
        LogSuffixView { head: self.position_at(count), entries: self.entries.skip(count) }
    }

    /// The run up to `new_tail`.
    pub open spec fn truncated(self, new_tail: LogIndex) -> LogSuffixView {
        LogSuffixView {
            head: self.head,
            entries: self.entries.take(new_tail.0 - self.head.index.0),
        }
    }

    /// The run from `start` up to `end`.
    pub open spec fn sliced(self, start: LogIndex, end: LogIndex) -> LogSuffixView {
        let from = start.0 - self.head.index.0;
        let to = end.0 - self.head.index.0;
        LogSuffixView { head: self.position_at(from), entries: self.entries.subrange(from, to) }
    }

    /// The index at which `next` is joined to `self` by a merge: the later
    /// of the two heads.
    pub open spec fn joint(self, next: LogSuffixView) -> int {
        if self.head.index.0 <= next.head.index.0 {
            next.head.index.0 as int
        } else {
            self.head.index.0 as int
        }
    }

    /// Whether `next` can be merged into `self`: it begins within `self`
    /// or at its tail, reaches the joint, and agrees with `self` on the
    /// term before the joint.
    pub open spec fn can_merge(self, next: LogSuffixView) -> bool {
        let joint = self.joint(next);
        &&& joint <= self.head.index.0 + self.entries.len()
        &&& joint <= next.head.index.0 + next.entries.len()
        &&& self.position_at(joint - self.head.index.0).prev_term == next.position_at(
            joint - next.head.index.0,
        ).prev_term
    }

    /// `self` up to the joint, followed by `next` from the joint on.
    pub open spec fn merged(self, next: LogSuffixView) -> LogSuffixView {
        let joint = self.joint(next);
        LogSuffixView {
            head: self.head,
            entries: self.entries.take(joint - self.head.index.0) + next.entries.skip(
                joint - next.head.index.0,
            ),
        }
    }
}

/// The tail of a run without entries is its head; the tail of any other
/// run has the term of the last entry, and its index is that of the head
/// plus the number of entries.
pub proof fn lemma_tail(s: LogSuffixView)
    requires
        s.fits(),
    ensures
        s.entries.len() == 0 ==> s.tail() == s.head,
        s.entries.len() > 0 ==> s.tail() == (LogPosition {
            prev_term: s.entries.last().term(),
            index: LogIndex((s.head.index.0 + s.entries.len()) as u64),
        }),
        s.tail().index.0 == s.head.index.0 + s.entries.len(),
{
}

/// Skipping keeps the tail and moves the head to the place at `new_head`.
pub proof fn lemma_skipped(s: LogSuffixView, new_head: LogIndex)
    requires
        s.fits(),
        s.covers(new_head),
    ensures
        s.skipped(new_head).tail() == s.tail(),
        s.skipped(new_head).head.index == new_head,
        s.skipped(new_head).head == s.position_at(new_head.0 - s.head.index.0),
        new_head.0 > s.head.index.0 ==> s.skipped(new_head).head.prev_term == s.entries[new_head.0
            - s.head.index.0 - 1].term(),
        s.skipped(new_head).positions() == s.positions().skip(new_head.0 - s.head.index.0),
        s.skipped(new_head).fits(),
{
    let count = new_head.0 - s.head.index.0;
    let t = s.skipped(new_head);
    assert(t.positions() =~= s.positions().skip(count)) by {
        assert forall|i: int| 0 <= i < t.positions().len() implies t.positions()[i]
            == s.positions().skip(count)[i] by {
            assert(t.position_at(i) == s.position_at(i + count));
        }
    }
}

/// Truncating keeps the head and moves the tail to the place at `new_tail`.
pub proof fn lemma_truncated(s: LogSuffixView, new_tail: LogIndex)
    requires
        s.fits(),
        s.covers(new_tail),
    ensures
        s.truncated(new_tail).head == s.head,
        s.truncated(new_tail).tail().index == new_tail,
        s.truncated(new_tail).tail() == s.position_at(new_tail.0 - s.head.index.0),
        s.truncated(new_tail).positions() == s.positions().take(new_tail.0 - s.head.index.0 + 1),
        s.truncated(new_tail).fits(),
{
    let count = new_tail.0 - s.head.index.0;
    let t = s.truncated(new_tail);
    assert(t.positions() =~= s.positions().take(count + 1));
}

/// The places of a slice are the places of the run from that at `start`
/// to that at `end`, both included.
pub proof fn lemma_sliced(s: LogSuffixView, start: LogIndex, end: LogIndex)
    requires
        s.fits(),
        s.covers(start),
        s.covers(end),
        start.0 <= end.0,
    ensures
        s.sliced(start, end).positions() == s.positions().subrange(
            start.0 - s.head.index.0,
            end.0 - s.head.index.0 + 1,
        ),
        s.sliced(start, end).head.index == start,
        s.sliced(start, end).tail().index == end,
        s.sliced(start, end) == s.skipped(start).truncated(end),
        s.sliced(start, end).fits(),
{
    let from = start.0 - s.head.index.0;
    let to = end.0 - s.head.index.0;
    let t = s.sliced(start, end);
    assert(t.positions() =~= s.positions().subrange(from, to + 1)) by {
        assert forall|i: int| 0 <= i < t.positions().len() implies t.positions()[i]
            == s.positions().subrange(from, to + 1)[i] by {
            assert(t.position_at(i) == s.position_at(i + from));
        }
    }
    assert(s.skipped(start).truncated(end).entries =~= t.entries);
}

/// A run of entries of the log: those from `head.index` on, as many as
/// `entries` holds.
#[derive(Debug)]
pub struct LogSuffix {
    /// The entries of the run.
    pub entries: Vec<LogEntry>,
    /// The place before the first entry.
    pub head: LogPosition,
}

impl View for LogSuffix {
    type V = LogSuffixView;

    open spec fn view(&self) -> LogSuffixView {
        LogSuffixView { head: self.head, entries: views_of(self.entries@) }
    }
}

impl LogSuffix {
    /// The place after the last entry: the head where there is no entry,
    /// else the term of the last entry and the index after it.
    pub fn tail(&self) -> (r: LogPosition)
        requires
            self@.fits(),
        ensures
            r == self@.tail(),
    {
        let n: usize = self.entries.len();
        if n > 0 {
            let prev_term = self.entries[n - 1].term();
            let index = self.head.index + n;
            LogPosition { prev_term, index }
        } else {
            self.head
        }
    }

    /// Whether the run fits the machine: see [`LogSuffixView::fits`].
    pub fn fits(&self) -> (r: bool)
        ensures
            r == self@.fits(),
    {
        let n: usize = self.entries.len();
        n < usize::MAX && n as u64 <= u64::MAX - self.head.index.as_u64()
    }

    /// The term before the place after `offset` entries.
    fn prev_term_at(&self, offset: usize) -> (r: Term)
        requires
            offset <= self.entries@.len(),
        ensures
            r == self@.position_at(offset as int).prev_term,
    {
        if offset == 0 {
            self.head.prev_term
        } else {
            self.entries[offset - 1].term()
        }
    }

    /// Whether `next` can be merged into `self`, and the result fits the
    /// machine: see [`LogSuffixView::can_merge`].
    pub fn can_merge(&self, next: &LogSuffix) -> (r: bool)
        requires
            self@.fits(),
            next@.fits(),
        ensures
            r == (self@.can_merge(next@) && self@.merged(next@).fits()),
    {
        let joint: u64 = if self.head.index.as_u64() <= next.head.index.as_u64() {
            next.head.index.as_u64()
        } else {
            self.head.index.as_u64()
        };
        if !(joint <= self.tail().index.as_u64() && joint <= next.tail().index.as_u64()) {
            return false;
        }
        let offset: usize = (joint - self.head.index.as_u64()) as usize;
        let entries_offset: usize = (joint - next.head.index.as_u64()) as usize;
        if !(self.prev_term_at(offset) == next.prev_term_at(entries_offset)) {
            return false;
        }
        let more: usize = next.entries.len() - entries_offset;
        more < usize::MAX - offset
    }

    /// A walk over the places of the run: the head, then the place after
    /// each entry.
    pub fn positions(&self) -> (r: LogPositions<'_>)
        ensures
            r.suffix() == self,
            r.offset() == 0,
            r.remaining() == self@.positions(),
    {
        let r = LogPositions { suffix: self, offset: 0 };
        assert(r.remaining() =~= self@.positions());
        r
    }

    /// Drops the entries before `new_head`, which becomes the index of the
    /// head. The tail stays.
    ///
    /// Fails with `InvalidInput`, and changes nothing, where `new_head`
    /// lies before the head or after the tail.
    pub fn skip_to(&mut self, new_head: LogIndex) -> (r: Result<(), ErrorKind>)
        requires
            old(self)@.fits(),
        ensures
            r is Ok <==> old(self)@.covers(new_head),
            r is Ok ==> final(self)@ == old(self)@.skipped(new_head),
            r is Ok ==> final(self)@.tail() == old(self)@.tail() && final(self).head.index
                == new_head,
            r is Err ==> r == Err::<(), ErrorKind>(ErrorKind::InvalidInput) && *final(self) == *old(
                self,
            ),
            final(self)@.fits(),
    {
        if !(self.head.index.as_u64() <= new_head.as_u64()) {
            return Err(ErrorKind::InvalidInput);
        }
        if !(new_head.as_u64() <= self.tail().index.as_u64()) {
            return Err(ErrorKind::InvalidInput);
        }
        let count: usize = new_head - self.head.index;
        proof {
            lemma_skipped(self@, new_head);
        }
        if count == 0 {
            assert(self@.skipped(new_head).entries =~= self@.entries);
            return Ok(());
        }
        let rest = self.entries.split_off(count);
        let prev_term = self.entries[count - 1].term();
        proof {
            assert(views_of(rest@) =~= old(self)@.entries.skip(count as int));
        }
        self.entries = rest;
        self.head.prev_term = prev_term;
        self.head.index = self.head.index + count;
        Ok(())
    }

    /// Drops the entries from `new_tail` on, which becomes the index of
    /// the tail. The head stays.
    ///
    /// Fails with `InvalidInput`, and changes nothing, where `new_tail`
    /// lies before the head or after the tail.
    pub fn truncate(&mut self, new_tail: LogIndex) -> (r: Result<(), ErrorKind>)
        requires
            old(self)@.fits(),
        ensures
            r is Ok <==> old(self)@.covers(new_tail),
            r is Ok ==> final(self)@ == old(self)@.truncated(new_tail),
            r is Ok ==> final(self).head == old(self).head && final(self)@.tail().index
                == new_tail,
            r is Err ==> r == Err::<(), ErrorKind>(ErrorKind::InvalidInput) && *final(self) == *old(
                self,
            ),
            final(self)@.fits(),
    {
        if !(self.head.index.as_u64() <= new_tail.as_u64()) {
            return Err(ErrorKind::InvalidInput);
        }
        let tail = self.tail();
        if !(new_tail.as_u64() <= tail.index.as_u64()) {
            return Err(ErrorKind::InvalidInput);
        }
        let delta: usize = tail.index - new_tail;
        let new_len: usize = self.entries.len() - delta;
        proof {
            lemma_truncated(self@, new_tail);
            assert(views_of(self.entries@.subrange(0, new_len as int)) =~= self@.entries.take(
                new_len as int,
            ));
        }
        self.entries.truncate(new_len);
        Ok(())
    }

    /// The run from `start` up to `end`.
    ///
    /// Fails with `InvalidInput` where `self` does not hold that range:
    /// `start` lies before the head, `end` after the tail, or `end` before
    /// `start`.
    pub fn slice(&self, start: LogIndex, end: LogIndex) -> (r: Result<LogSuffix, ErrorKind>)
        requires
            self@.fits(),
        ensures
            r is Ok <==> self@.covers(start) && self@.covers(end) && start.0 <= end.0,
            r matches Ok(s) ==> s@ == self@.sliced(start, end) && s@.positions()
                == self@.positions().subrange(
                start.0 - self.head.index.0,
                end.0 - self.head.index.0 + 1,
            ) && s@.fits(),
            r is Err ==> r matches Err(ErrorKind::InvalidInput),
    {
        if !(self.head.index.as_u64() <= start.as_u64()) {
            return Err(ErrorKind::InvalidInput);
        }
        if !(start.as_u64() <= end.as_u64()) {
            return Err(ErrorKind::InvalidInput);
        }
        if !(end.as_u64() <= self.tail().index.as_u64()) {
            return Err(ErrorKind::InvalidInput);
        }
        let slice_start: usize = start - self.head.index;
        let slice_end: usize = end - self.head.index;
        let slice_head = if start.as_u64() == self.head.index.as_u64() {
            self.head
        } else {
            let prev_term = self.entries[slice_start - 1].term();
            LogPosition { prev_term, index: start }
        };
        let mut slice_entries: Vec<LogEntry> = Vec::new();
        let mut i: usize = slice_start;
        while i < slice_end
            invariant
                slice_start <= i <= slice_end <= self.entries.len(),
                views_of(slice_entries@) == self@.entries.subrange(slice_start as int, i as int),
            decreases slice_end - i,
        {
            let e = self.entries[i].clone();
            proof {
                assert(e@ == self@.entries[i as int]);
                assert(views_of(slice_entries@.push(e)) =~= views_of(slice_entries@).push(e@));
                assert(self@.entries.subrange(slice_start as int, i + 1)
                    =~= self@.entries.subrange(slice_start as int, i as int).push(e@));
            }
            slice_entries.push(e);
            i += 1;
        }
        proof {
            lemma_sliced(self@, start, end);
        }
        Ok(LogSuffix { head: slice_head, entries: slice_entries })
    }

    /// Joins `next` to `self`: keeps the entries of `self` before the
    /// joint, the later of the two heads, and puts those of `next` from
    /// the joint on behind them.
    ///
    /// `next` has to begin within `self` or at its tail, to reach the
    /// joint, and to agree with `self` on the term before the joint.
    pub fn merge(&mut self, next: &LogSuffix)
        requires
            old(self)@.fits(),
            next@.fits(),
            old(self)@.can_merge(next@),
            old(self)@.merged(next@).fits(),
        ensures
            final(self)@ == old(self)@.merged(next@),
            final(self)@.fits(),
            final(self).head == old(self).head,
            final(self)@.tail().index == next@.tail().index,
    {
        let entries_offset: usize = if self.head.index.as_u64() <= next.head.index.as_u64() {
            0
        } else {
            self.head.index - next.head.index
        };
        let offset: usize = (next.head.index + entries_offset) - self.head.index;
        proof {
            assert(views_of(self.entries@.subrange(0, offset as int)) =~= self@.entries.take(
                offset as int,
            ));
        }
        self.entries.truncate(offset);
        let mut i: usize = entries_offset;
        while i < next.entries.len()
            invariant
                entries_offset <= i <= next.entries.len(),
                self.head == old(self).head,
                views_of(self.entries@) == old(self)@.entries.take(offset as int)
                    + next@.entries.subrange(entries_offset as int, i as int),
            decreases next.entries.len() - i,
        {
            let e = next.entries[i].clone();
            proof {
                assert(e@ == next@.entries[i as int]);
                assert(views_of(self.entries@.push(e)) =~= views_of(self.entries@).push(e@));
                assert(next@.entries.subrange(entries_offset as int, i + 1)
                    =~= next@.entries.subrange(entries_offset as int, i as int).push(e@));
                assert(views_of(self.entries@.push(e)) =~= old(self)@.entries.take(offset as int)
                    + next@.entries.subrange(entries_offset as int, i + 1));
            }
            self.entries.push(e);
            i += 1;
        }
        proof {
            assert(next@.entries.subrange(entries_offset as int, next.entries.len() as int)
                =~= next@.entries.skip(entries_offset as int));
            assert(self@.entries.len() == offset + (next.entries.len() - entries_offset));
        }
    }
}

impl Clone for LogSuffix {
    fn clone(&self) -> (r: Self)
        ensures
            r@ == self@,
    {
        let mut entries: Vec<LogEntry> = Vec::new();
        let mut i: usize = 0;
        while i < self.entries.len()
            invariant
                i <= self.entries.len(),
                views_of(entries@) == self@.entries.take(i as int),
            decreases self.entries.len() - i,
        {
            let e = self.entries[i].clone();
            proof {
                assert(e@ == self@.entries[i as int]);
                assert(views_of(entries@.push(e)) =~= views_of(entries@).push(e@));
                assert(self@.entries.take(i + 1) =~= self@.entries.take(i as int).push(e@));
            }
            entries.push(e);
            i += 1;
        }
        proof {
            assert(self@.entries.take(self.entries.len() as int) =~= self@.entries);
        }
        LogSuffix { head: self.head, entries }
    }
}

impl Default for LogSuffix {
    fn default() -> (r: Self)
        ensures
            r@ == (LogSuffixView {
                head: LogPosition { prev_term: Term(0), index: LogIndex(0) },
                entries: Seq::empty(),
            }),
    {
        let r = LogSuffix {
            head: LogPosition { prev_term: Term(0), index: LogIndex(0) },
            entries: Vec::new(),
        };
        assert(r@.entries =~= Seq::<LogEntryView>::empty());
        r
    }
}

/// A walk over the places of a run of entries.
#[derive(Debug)]
pub struct LogPositions<'a> {
    suffix: &'a LogSuffix,
    offset: usize,
}

impl<'a> LogPositions<'a> {
    /// The run that is walked.
    pub closed spec fn suffix(&self) -> &'a LogSuffix {
        self.suffix
    }

    /// The number of places already handed out; one more once the walk is
    /// over.
    pub closed spec fn offset(&self) -> usize {
        self.offset
    }

    /// The places still to come.
    pub open spec fn remaining(&self) -> Seq<LogPosition> {
        if self.offset() <= self.suffix()@.entries.len() {
            self.suffix()@.positions().skip(self.offset() as int)
        } else {
            Seq::empty()
        }
    }

    /// The next place of the walk, or `None` when the walk is over.
    pub fn next(&mut self) -> (r: Option<LogPosition>)
        requires
            old(self).suffix()@.fits(),
        ensures
            final(self).suffix() == old(self).suffix(),
            match r {
                Some(p) => old(self).remaining().len() > 0 && p == old(self).remaining()[0]
                    && final(self).remaining() == old(self).remaining().skip(1),
                None => old(self).remaining().len() == 0 && *final(self) == *old(self),
            },
    {
        if self.suffix.entries.len() < self.offset {
            None
        } else {
            let id = if self.offset == 0 {
                self.suffix.head
            } else {
                let i: usize = self.offset - 1;
                let prev_term = self.suffix.entries[i].term();
                let index = self.suffix.head.index + self.offset;
                LogPosition { prev_term, index }
            };
            proof {
                assert(old(self).remaining().skip(1) =~= if self.offset + 1
                    <= self.suffix@.entries.len() {
                    self.suffix@.positions().skip(self.offset + 1)
                } else {
                    Seq::empty()
                });
            }
            self.offset += 1;
            Some(id)
        }
    }

    /// The places still to come, in a vector.
    pub fn to_vec(self) -> (r: Vec<LogPosition>)
        requires
            self.suffix()@.fits(),
        ensures
            r@ == self.remaining(),
    {
        let mut walk = self;
        let mut r: Vec<LogPosition> = Vec::new();
        loop
            invariant
                walk.suffix() == self.suffix(),
                walk.suffix()@.fits(),
                r@ + walk.remaining() == self.remaining(),
            decreases walk.remaining().len(),
        {
            match walk.next() {
                Some(p) => {
                    proof {
                        let before = r@;
                        let rest = self.remaining().skip(before.len() as int);
                        assert(rest =~= seq![p] + walk.remaining());
                        assert(before.push(p) + walk.remaining() =~= self.remaining());
                    }
                    r.push(p);
                },
                None => {
                    assert(r@ =~= self.remaining());
                    return r;
                },
            }
        }
    }
}

/// The beginning of the log as a snapshot: all entries before `tail`,
/// replaced by the state that they lead to.
#[derive(Debug)]
pub struct LogPrefix {
    /// The place after the last entry that the snapshot covers.
    pub tail: LogPosition,
    /// The latest configuration among the entries covered.
    pub config: ClusterConfig,
    /// The state of the state machine after the entries covered.
    pub snapshot: Vec<u8>,
}

impl LogPrefix {
    /// Whether the snapshot answers a request for the log from `start` up
    /// to `end`: it does where `start` is 0 and `end`, if given, is not
    /// after the snapshot's tail.
    pub fn is_match(&self, start: LogIndex, end: Option<LogIndex>) -> (r: bool)
        ensures
            r == (start.0 == 0 && match end {
                None => true,
                Some(e) => e.0 <= self.tail.index.0,
            }),
    {
        start.as_u64() == 0 && match end {
            None => true,
            Some(e) => e.as_u64() <= self.tail.index.as_u64(),
        }
    }
}

impl Clone for LogPrefix {
    fn clone(&self) -> (r: Self)
        ensures
            r.tail == self.tail,
            r.config@ == self.config@,
            r.snapshot@ == self.snapshot@,
    {
        LogPrefix {
            tail: self.tail,
            config: self.config.clone(),
            snapshot: copy_bytes(&self.snapshot),
        }
    }
}

/// What a load of the local log returns.
#[derive(Debug)]
pub enum Log {
    /// The beginning of the log, as a snapshot.
    Prefix(LogPrefix),
    /// A run of entries.
    Suffix(LogSuffix),
}

impl From<LogPrefix> for Log {
    fn from(f: LogPrefix) -> (r: Self) {
        Log::Prefix(f)
    }
}

impl FromSpecImpl<LogPrefix> for Log {
    open spec fn obeys_from_spec() -> bool {
        true
    }

    open spec fn from_spec(f: LogPrefix) -> Self {
        Log::Prefix(f)
    }
}

impl From<LogSuffix> for Log {
    fn from(f: LogSuffix) -> (r: Self) {
        Log::Suffix(f)
    }
}

impl FromSpecImpl<LogSuffix> for Log {
    open spec fn obeys_from_spec() -> bool {
        true
    }

    open spec fn from_spec(f: LogSuffix) -> Self {
        Log::Suffix(f)
    }
}

} // verus!
