//! What a leader knows of its followers, and what it makes of their
//! replies.
use vstd::prelude::*;
use crate::cluster::ClusterConfig;
use crate::election::Term;
use crate::error::ErrorKind;
use crate::log::Log;
use crate::log::LogHistory;
use crate::log::LogIndex;
use crate::log::LogPosition;
use crate::log::LogPrefix;
use crate::log::LogSuffix;
use crate::log::history::LogHistoryView;
use crate::members::ClusterMembers;
use crate::members::ids_of;
use crate::members::lemma_strictly_ordered_distinct;
use crate::message::AppendEntriesReply;
use crate::message::SequenceNumber;
use crate::node::NodeId;

verus! {

/// What a leader knows of one follower.
#[derive(Debug, Clone, Copy, PartialEq, Eq, Structural)]
pub struct Follower {
    /// Replies to requests up to this number no longer start a
    /// synchronisation.
    pub obsolete_seq_no: SequenceNumber,
    /// How far the follower's log is known, or presumed, to reach.
    pub log_tail: LogIndex,
    /// The greatest number of a request that the follower has answered.
    pub last_seq_no: SequenceNumber,
    /// Whether the follower's log is known to agree with the leader's up
    /// to `log_tail`.
    pub synced: bool,
}

/// The term that the history `h` has on record at `index`.
pub open spec fn term_at(h: LogHistoryView, index: LogIndex) -> Option<Term> {
    match h.get_record(index) {
        Some(record) => Some(record.head.prev_term),
        None => None,
    }
}

impl Follower {
    /// What a leader knows of a follower that it has not heard of.
    pub open spec fn spec_new() -> Follower {
        Follower {
            obsolete_seq_no: SequenceNumber(0),
            log_tail: LogIndex(0),
            last_seq_no: SequenceNumber(0),
            synced: false,
        }
    }

    /// The index that the follower supports as committed: its tail where
    /// its log is known to agree with the leader's, else 0.
    pub open spec fn synced_tail(self) -> u64 {
        if self.synced {
            self.log_tail.0
        } else {
            0
        }
    }

    /// What the leader knows after a reply, and whether the reply brought
    /// the follower forward.
    ///
    /// The reply has the number `seq_no`, reports `log_tail`, and says
    /// `busy` or not; `leader_term` is the term that the leader has on
    /// record at the index of `log_tail`.
    ///
    /// The number is noted where it is greater than the last one. A busy
    /// reply changes nothing else. A follower in agreement moves forward
    /// where the reply reports a greater index; where it reports 0 and the
    /// follower was further, the agreement is off. A follower not in
    /// agreement comes to agree at the reported place where the leader has
    /// the same term there; else it is presumed to reach one index less.
    pub open spec fn updated(
        self,
        seq_no: SequenceNumber,
        busy: bool,
        log_tail: LogPosition,
        leader_term: Option<Term>,
    ) -> (Follower, bool) {
        let noted = if self.last_seq_no.0 < seq_no.0 {
            Follower { last_seq_no: seq_no, ..self }
        } else {
            self
        };
        if busy {
            (noted, false)
        } else if noted.synced {
            if noted.log_tail.0 < log_tail.index.0 {
                (Follower { log_tail: log_tail.index, ..noted }, true)
            } else if log_tail.index.0 == 0 && noted.log_tail.0 != 0 {
                (Follower { synced: false, ..noted }, false)
            } else {
                (noted, false)
            }
        } else if leader_term == Some(log_tail.prev_term) {
            (Follower { synced: true, log_tail: log_tail.index, ..noted }, true)
        } else {
            (
                Follower {
                    synced: false,
                    log_tail: LogIndex(
                        if log_tail.index.0 == 0 {
                            0
                        } else {
                            (log_tail.index.0 - 1) as u64
                        },
                    ),
                    ..noted
                },
                false,
            )
        }
    }

    /// What a leader knows of a follower that it has not heard of: no
    /// reply yet, a log presumed empty, and no agreement.
    pub fn new() -> (r: Self)
        ensures
            r == Follower::spec_new(),
    {
        Follower {
            obsolete_seq_no: SequenceNumber::new(0),
            log_tail: LogIndex::new(0),
            last_seq_no: SequenceNumber::new(0),
            synced: false,
        }
    }
}

/// The index that each of `followers` supports as committed.
pub open spec fn synced_tails(followers: Map<Seq<char>, Follower>) -> spec_fn(Seq<char>) -> u64 {
    |id: Seq<char>| followers[id].synced_tail()
}

/// The number of the last request that each of `followers` has answered.
pub open spec fn last_seq_nos(followers: Map<Seq<char>, Follower>) -> spec_fn(Seq<char>) -> u64 {
    |id: Seq<char>| followers[id].last_seq_no.0
}

/// A request to load the local log from `start` up to `end`, in order to
/// send it to `follower`.
#[derive(Debug)]
pub struct LoadRequest {
    pub follower: NodeId,
    pub start: LogIndex,
    pub end: Option<LogIndex>,
}

/// A message for the driver to send to `follower`.
#[derive(Debug)]
pub enum Outgoing {
    /// A snapshot to install.
    InstallSnapshot { follower: NodeId, prefix: LogPrefix },
    /// Entries to append.
    AppendEntries { follower: NodeId, suffix: LogSuffix },
}

/// The place of `id` in `ids`.
pub open spec fn place_of(ids: Seq<Seq<char>>, id: Seq<char>) -> int {
    choose|i: int| 0 <= i < ids.len() && ids[i] == id
}

/// The followers that `ids` and `states` hold: the one named by the
/// identifier at a place has the state at the same place.
pub open spec fn table(ids: Seq<Seq<char>>, states: Seq<Follower>) -> Map<Seq<char>, Follower> {
    Map::new(|id: Seq<char>| ids.contains(id), |id: Seq<char>| states[place_of(ids, id)])
}

/// In a table without duplicates each identifier has the state at its own
/// place.
pub proof fn lemma_table_at(ids: Seq<Seq<char>>, states: Seq<Follower>, i: int)
    requires
        ids.no_duplicates(),
        0 <= i < ids.len(),
    ensures
        table(ids, states).contains_key(ids[i]),
        table(ids, states)[ids[i]] == states[i],
        place_of(ids, ids[i]) == i,
{
    assert(ids.contains(ids[i]));
}

/// What a leader knows of its followers: how far the log of each
/// reaches, which reads of the local log are under way for them, and which
/// heartbeat a majority has answered.
#[derive(Debug)]
pub struct FollowersManager {
    ids: Vec<NodeId>,
    states: Vec<Follower>,
    config: ClusterConfig,
    latest_hearbeat_ack: SequenceNumber,
    last_broadcast_seq_no: SequenceNumber,
    tasks: ClusterMembers,
}

impl FollowersManager {
    /// The followers and what is known of each.
    pub closed spec fn followers(&self) -> Map<Seq<char>, Follower> {
        table(ids_of(self.ids@), self.states@)
    }

    /// The configuration that the followers are kept for.
    pub closed spec fn config(&self) -> ClusterConfig {
        self.config
    }

    /// The followers for which a read of the local log is under way.
    pub closed spec fn tasks(&self) -> Set<Seq<char>> {
        self.tasks@
    }

    /// The number of the latest heartbeat that the cluster has answered.
    pub closed spec fn spec_latest_hearbeat_ack(&self) -> SequenceNumber {
        self.latest_hearbeat_ack
    }

    /// The number of the latest broadcast.
    pub closed spec fn spec_last_broadcast_seq_no(&self) -> SequenceNumber {
        self.last_broadcast_seq_no
    }

    /// Whether the manager holds each follower once.
    pub closed spec fn well_kept(&self) -> bool {
        &&& self.ids@.len() == self.states@.len()
        &&& ids_of(self.ids@).no_duplicates()
    }

    /// Whether the manager is in order: it holds each follower once, and
    /// it holds every member of its configuration, old or new.
    pub open spec fn wf(&self) -> bool {
        &&& self.well_kept()
        &&& forall|id: Seq<char>| self.config()@.knows(id) ==> self.followers().contains_key(id)
    }

    /// The place at which the manager holds `node`.
    fn position(&self, node: &NodeId) -> (r: Option<usize>)
        requires
            self.well_kept(),
        ensures
            match r {
                Some(i) => i < self.ids@.len() && self.ids@[i as int]@ == node@
                    && self.followers().contains_key(node@) && self.followers()[node@]
                    == self.states@[i as int],
                None => !self.followers().contains_key(node@),
            },
    {
        let mut i: usize = 0;
        while i < self.ids.len()
            invariant
                i <= self.ids.len(),
                self.well_kept(),
                forall|k: int| 0 <= k < i ==> ids_of(self.ids@)[k] != node@,
            decreases self.ids.len() - i,
        {
            if self.ids[i].same(node) {
                proof {
                    assert(ids_of(self.ids@)[i as int] == node@);
                    lemma_table_at(ids_of(self.ids@), self.states@, i as int);
                }
                return Some(i);
            }
            i += 1;
        }
        None
    }

    /// The manager of the followers of a leader under `config`: every
    /// member, old or new, is a follower of which nothing is known yet.
    pub fn new(config: ClusterConfig) -> (r: Self)
        ensures
            r.wf(),
            r.config() == config,
            r.followers() == Map::new(
                |id: Seq<char>| config@.knows(id),
                |id: Seq<char>| Follower::spec_new(),
            ),
            r.tasks() == Set::<Seq<char>>::empty(),
            r.spec_latest_hearbeat_ack() == SequenceNumber(0),
            r.spec_last_broadcast_seq_no() == SequenceNumber(0),
    {
        let ids = config.members();
        let mut states: Vec<Follower> = Vec::new();
        let mut i: usize = 0;
        while i < ids.len()
            invariant
                i <= ids.len(),
                states@.len() == i,
                forall|k: int| 0 <= k < i ==> states@[k] == Follower::spec_new(),
            decreases ids.len() - i,
        {
            states.push(Follower::new());
            i += 1;
        }
        proof {
            lemma_strictly_ordered_distinct(ids_of(ids@));
            let made = table(ids_of(ids@), states@);
            let wanted = Map::new(
                |id: Seq<char>| config@.knows(id),
                |id: Seq<char>| Follower::spec_new(),
            );
            assert forall|id: Seq<char>| made.contains_key(id) <==> wanted.contains_key(id) by {
                assert(ids_of(ids@).to_set().contains(id) <==> ids_of(ids@).contains(id));
                assert(config@.new.to_set().contains(id) <==> config@.new.contains(id));
                assert(config@.old.to_set().contains(id) <==> config@.old.contains(id));
            }
            assert(made =~= wanted);
        }
        FollowersManager {
            ids,
            states,
            config,
            tasks: ClusterMembers::new(),
            latest_hearbeat_ack: SequenceNumber::new(0),
            last_broadcast_seq_no: SequenceNumber::new(0),
        }
    }

    /// What is known of the follower `node`, if it is one.
    pub fn follower(&self, node: &NodeId) -> (r: Option<Follower>)
        requires
            self.wf(),
        ensures
            r == if self.followers().contains_key(node@) {
                Some(self.followers()[node@])
            } else {
                None
            },
    {
        match self.position(node) {
            Some(i) => Some(self.states[i]),
            None => None,
        }
    }

    /// The configuration that the followers are kept for.
    pub fn cluster_config(&self) -> (r: &ClusterConfig)
        ensures
            *r == self.config(),
    {
        &self.config
    }

    /// Whether a read of the local log is under way for `node`.
    pub fn is_loading(&self, node: &NodeId) -> (r: bool)
        ensures
            r == self.tasks().contains(node@),
    {
        self.tasks.contains(node)
    }

    /// The number of the latest heartbeat that the cluster has answered.
    pub fn latest_hearbeat_ack(&self) -> (r: SequenceNumber)
        ensures
            r == self.spec_latest_hearbeat_ack(),
    {
        self.latest_hearbeat_ack
    }

    /// Notes the number of the latest broadcast.
    pub fn set_last_broadcast_seq_no(&mut self, seq_no: SequenceNumber)
        ensures
            final(self).spec_last_broadcast_seq_no() == seq_no,
            final(self).followers() == old(self).followers(),
            final(self).config() == old(self).config(),
            final(self).tasks() == old(self).tasks(),
            final(self).spec_latest_hearbeat_ack() == old(self).spec_latest_hearbeat_ack(),
            old(self).wf() ==> final(self).wf(),
    {
        self.last_broadcast_seq_no = seq_no;
        proof {
            assert(self.followers() == old(self).followers());
            assert(self.config() == old(self).config());
        }
    }

    /// Brings what is known of the sender of `reply` up to date, as
    /// [`Follower::updated`] says, and returns whether the reply brought
    /// the follower forward. `log` is the leader's history.
    ///
    /// The sender has to be one of the followers.
    pub fn update_follower_state(&mut self, log: &LogHistory, reply: &AppendEntriesReply) -> (r:
        bool)
        requires
            old(self).wf(),
            old(self).followers().contains_key(reply.header.sender@),
        ensures
            final(self).wf(),
            (final(self).followers()[reply.header.sender@], r)
                == old(self).followers()[reply.header.sender@].updated(
                reply.header.seq_no,
                reply.busy,
                reply.log_tail,
                term_at(log@, reply.log_tail.index),
            ),
            final(self).followers() == old(self).followers().insert(
                reply.header.sender@,
                final(self).followers()[reply.header.sender@],
            ),
            final(self).config() == old(self).config(),
            final(self).tasks() == old(self).tasks(),
            final(self).spec_latest_hearbeat_ack() == old(self).spec_latest_hearbeat_ack(),
            final(self).spec_last_broadcast_seq_no() == old(self).spec_last_broadcast_seq_no(),
    {
        let i: usize = match self.position(&reply.header.sender) {
            Some(i) => i,
            None => {
                return false;
            },
        };
        let mut follower: Follower = self.states[i];
        if follower.last_seq_no.as_u64() < reply.header.seq_no.as_u64() {
            follower.last_seq_no = reply.header.seq_no;
        }
        let log_tail = reply.log_tail;
        let updated = if reply.busy {
            false
        } else if follower.synced {
            let updated = follower.log_tail.as_u64() < log_tail.index.as_u64();
            if updated {
                follower.log_tail = log_tail.index;
            } else if log_tail.index.as_u64() == 0 && follower.log_tail.as_u64() != 0 {
                follower.synced = false;
            }
            updated
        } else {
            let leader_term = match log.get_record(log_tail.index) {
                Some(record) => Some(record.head.prev_term),
                None => None,
            };
            follower.synced = leader_term == Some(log_tail.prev_term);
            if follower.synced {
                follower.log_tail = log_tail.index;
            } else {
                follower.log_tail = LogIndex::new(log_tail.index.as_u64().saturating_sub(1));
            }
            follower.synced
        };
        proof {
            self.lemma_state_set(i as int, follower);
        }
        self.states[i] = follower;
        updated
    }

    /// The index up to which the log is committed: the consensus value of
    /// the configuration, where each follower supports its tail if its
    /// log is known to agree with the leader's, and else 0.
    pub fn committed_log_tail(&self) -> (r: LogIndex)
        requires
            self.wf(),
            self.config().spec_can_decide(),
        ensures
            r == LogIndex(self.config().spec_consensus_value(synced_tails(self.followers()))),
    {
        let ids = &self.ids;
        let states = &self.states;
        let ghost g = synced_tails(self.followers());
        let f = |node_id: &NodeId| -> (v: u64)
            requires
                ids@.len() == states@.len(),
                ids_of(ids@).no_duplicates(),
                ids_of(ids@).contains(node_id@),
            ensures
                v == table(ids_of(ids@), states@)[node_id@].synced_tail(),
            {
                let i: usize = find_slot(ids, node_id);
                proof {
                    lemma_table_at(ids_of(ids@), states@, i as int);
                }
                let f = &states[i];
                if f.synced {
                    f.log_tail.as_u64()
                } else {
                    0
                }
            };
        proof {
            self.lemma_members_held();
        }
        let value: u64 = self.config.consensus_value(f);
        proof {
            self.config.lemma_consensus_by_function(f, g, value);
        }
        LogIndex::new(value)
    }

    /// The index up to which the log is committed for the old and for the
    /// new members alike: as [`Self::committed_log_tail`], with the full
    /// consensus value, which asks both for a majority in `CatchUp` too.
    pub fn joint_committed_log_tail(&self) -> (r: LogIndex)
        requires
            self.wf(),
            self.config().spec_can_decide_fully(),
        ensures
            r == LogIndex(
                self.config().spec_full_consensus_value(synced_tails(self.followers())),
            ),
    {
        let ids = &self.ids;
        let states = &self.states;
        let ghost g = synced_tails(self.followers());
        let f = |node_id: &NodeId| -> (v: u64)
            requires
                ids@.len() == states@.len(),
                ids_of(ids@).no_duplicates(),
                ids_of(ids@).contains(node_id@),
            ensures
                v == table(ids_of(ids@), states@)[node_id@].synced_tail(),
            {
                let i: usize = find_slot(ids, node_id);
                proof {
                    lemma_table_at(ids_of(ids@), states@, i as int);
                }
                let f = &states[i];
                if f.synced {
                    f.log_tail.as_u64()
                } else {
                    0
                }
            };
        proof {
            self.lemma_members_held();
        }
        let value: u64 = self.config.full_consensus_value(f);
        proof {
            self.config.lemma_consensus_by_function(f, g, value);
        }
        LogIndex::new(value)
    }

    /// Takes the reply of a follower to entries or to a heartbeat; `log`
    /// is the leader's history. Returns whether the reply brought the
    /// follower forward.
    ///
    /// What is known of the sender is brought up to date, as
    /// [`Self::update_follower_state`] says. Where the number of the
    /// reply is greater than that of the latest heartbeat answered, the
    /// latter becomes the consensus value of the numbers that the
    /// followers have answered last.
    pub fn handle_append_entries_reply(&mut self, log: &LogHistory, reply: &AppendEntriesReply) -> (r:
        bool)
        requires
            old(self).wf(),
            old(self).followers().contains_key(reply.header.sender@),
            old(self).spec_latest_hearbeat_ack().0 < reply.header.seq_no.0
                ==> old(self).config().spec_can_decide(),
        ensures
            final(self).wf(),
            (final(self).followers()[reply.header.sender@], r)
                == old(self).followers()[reply.header.sender@].updated(
                reply.header.seq_no,
                reply.busy,
                reply.log_tail,
                term_at(log@, reply.log_tail.index),
            ),
            final(self).followers() == old(self).followers().insert(
                reply.header.sender@,
                final(self).followers()[reply.header.sender@],
            ),
            final(self).spec_latest_hearbeat_ack() == if old(self).spec_latest_hearbeat_ack().0
                < reply.header.seq_no.0 {
                SequenceNumber(
                    final(self).config().spec_consensus_value(
                        last_seq_nos(final(self).followers()),
                    ),
                )
            } else {
                old(self).spec_latest_hearbeat_ack()
            },
            final(self).config() == old(self).config(),
            final(self).tasks() == old(self).tasks(),
            final(self).spec_last_broadcast_seq_no() == old(self).spec_last_broadcast_seq_no(),
    {
        let updated = self.update_follower_state(log, reply);
        if self.latest_hearbeat_ack.as_u64() < reply.header.seq_no.as_u64() {
            let ids = &self.ids;
            let states = &self.states;
            let ghost g = last_seq_nos(self.followers());
            let f = |node_id: &NodeId| -> (v: u64)
                requires
                    ids@.len() == states@.len(),
                    ids_of(ids@).no_duplicates(),
                    ids_of(ids@).contains(node_id@),
                ensures
                    v == table(ids_of(ids@), states@)[node_id@].last_seq_no.0,
                {
                    let i: usize = find_slot(ids, node_id);
                    proof {
                        lemma_table_at(ids_of(ids@), states@, i as int);
                    }
                    states[i].last_seq_no.as_u64()
                };
            proof {
                self.lemma_members_held();
            }
            let value: u64 = self.config.consensus_value(f);
            proof {
                self.config.lemma_consensus_by_function(f, g, value);
            }
            self.latest_hearbeat_ack = SequenceNumber::new(value);
            proof {
                assert(self.followers() == table(ids_of(self.ids@), self.states@));
            }
        }
        updated
    }

    /// Decides whether to begin to bring the sender of `reply` up to the
    /// leader's log, whose history is `log`, and which part of the log to
    /// load for that.
    ///
    /// Nothing is to be done, and nothing changes, where the reply says
    /// busy or a read for the sender is under way. A sender that is no
    /// follower fails with `InconsistentState`. A reply whose number is
    /// not greater than the sender's obsolete number changes nothing
    /// either. Else that number becomes the number of the latest
    /// broadcast. Where the sender's log reaches the leader's tail nothing
    /// more is done. Else a read is under way from now on: from the
    /// sender's tail up to the leader's tail where their logs agree, and
    /// else up to the sender's tail itself.
    pub fn log_sync(&mut self, log: &LogHistory, reply: &AppendEntriesReply) -> (r: Result<
        Option<LoadRequest>,
        ErrorKind,
    >)
        requires
            old(self).wf(),
        ensures
            final(self).wf(),
            final(self).config() == old(self).config(),
            final(self).spec_latest_hearbeat_ack() == old(self).spec_latest_hearbeat_ack(),
            final(self).spec_last_broadcast_seq_no() == old(self).spec_last_broadcast_seq_no(),
            ({
                let sender = reply.header.sender@;
                let known = old(self).followers();
                if reply.busy || old(self).tasks().contains(sender) {
                    &&& r matches Ok(None)
                    &&& final(self).followers() == known
                    &&& final(self).tasks() == old(self).tasks()
                } else if !known.contains_key(sender) {
                    &&& r matches Err(ErrorKind::InconsistentState)
                    &&& final(self).followers() == known
                    &&& final(self).tasks() == old(self).tasks()
                } else if reply.header.seq_no.0 <= known[sender].obsolete_seq_no.0 {
                    &&& r matches Ok(None)
                    &&& final(self).followers() == known
                    &&& final(self).tasks() == old(self).tasks()
                } else {
                    &&& final(self).followers() == known.insert(
                        sender,
                        Follower {
                            obsolete_seq_no: old(self).spec_last_broadcast_seq_no(),
                            ..known[sender]
                        },
                    )
                    &&& if log@.appended_tail.index.0 <= known[sender].log_tail.0 {
                        &&& r matches Ok(None)
                        &&& final(self).tasks() == old(self).tasks()
                    } else {
                        &&& r matches Ok(Some(load))
                        &&& load.follower@ == sender
                        &&& load.start == known[sender].log_tail
                        &&& load.end == Some(
                            if known[sender].synced {
                                log@.appended_tail.index
                            } else {
                                known[sender].log_tail
                            },
                        )
                        &&& final(self).tasks() == old(self).tasks().insert(sender)
                    }
                }
            }),
    {
        if reply.busy || self.tasks.contains(&reply.header.sender) {
            return Ok(None);
        }
        let i: usize = match self.position(&reply.header.sender) {
            Some(i) => i,
            None => {
                return Err(ErrorKind::InconsistentState);
            },
        };
        let mut follower: Follower = self.states[i];
        if reply.header.seq_no.as_u64() <= follower.obsolete_seq_no.as_u64() {
            return Ok(None);
        }
        follower.obsolete_seq_no = self.last_broadcast_seq_no;
        proof {
            self.lemma_state_set(i as int, follower);
        }
        self.states[i] = follower;
        if log.tail().index.as_u64() <= follower.log_tail.as_u64() {
            return Ok(None);
        }
        let end = if follower.synced {
            log.tail().index
        } else {
            follower.log_tail
        };
        self.tasks.insert(reply.header.sender.clone());
        Ok(
            Some(
                LoadRequest {
                    follower: reply.header.sender.clone(),
                    start: follower.log_tail,
                    end: Some(end),
                },
            ),
        )
    }

    /// Hands out what the reads that have ended brought, each as the
    /// message to send to the follower it was read for: a snapshot to
    /// install, or entries to append. The reads are no longer under way.
    pub fn run_once(&mut self, dones: Vec<(NodeId, Log)>) -> (r: Vec<Outgoing>)
        requires
            old(self).wf(),
        ensures
            final(self).wf(),
            final(self).followers() == old(self).followers(),
            final(self).config() == old(self).config(),
            final(self).spec_latest_hearbeat_ack() == old(self).spec_latest_hearbeat_ack(),
            final(self).spec_last_broadcast_seq_no() == old(self).spec_last_broadcast_seq_no(),
            final(self).tasks() == old(self).tasks().difference(
                Set::new(|id: Seq<char>| exists|k: int| 0 <= k < dones@.len() && dones@[k].0@ == id),
            ),
            r@.len() == dones@.len(),
            forall|k: int|
                0 <= k < dones@.len() ==> match dones@[k].1 {
                    Log::Prefix(snapshot) => #[trigger] r@[k] == (Outgoing::InstallSnapshot {
                        follower: dones@[k].0,
                        prefix: snapshot,
                    }),
                    Log::Suffix(slice) => r@[k] == (Outgoing::AppendEntries {
                        follower: dones@[k].0,
                        suffix: slice,
                    }),
                },
    {
        let mut dones = dones;
        let ghost all = dones@;
        let mut r: Vec<Outgoing> = Vec::new();
        let ghost mut sent: int = 0;
        proof {
            assert(all.skip(0) =~= all);
        }
        while dones.len() > 0
            invariant
                0 <= sent <= all.len(),
                dones@ == all.skip(sent),
                self.well_kept(),
                self.ids == old(self).ids,
                self.states == old(self).states,
                self.config == old(self).config,
                self.latest_hearbeat_ack == old(self).latest_hearbeat_ack,
                self.last_broadcast_seq_no == old(self).last_broadcast_seq_no,
                self.tasks@ == old(self).tasks().difference(
                    Set::new(|id: Seq<char>| exists|k: int| 0 <= k < sent && all[k].0@ == id),
                ),
                r@.len() == sent,
                forall|k: int|
                    0 <= k < sent ==> match all[k].1 {
                        Log::Prefix(snapshot) => #[trigger] r@[k] == (Outgoing::InstallSnapshot {
                            follower: all[k].0,
                            prefix: snapshot,
                        }),
                        Log::Suffix(slice) => r@[k] == (Outgoing::AppendEntries {
                            follower: all[k].0,
                            suffix: slice,
                        }),
                    },
            decreases dones.len(),
        {
            let (follower, log) = dones.remove(0);
            proof {
                assert((follower, log) == all[sent]);
                assert(dones@ =~= all.skip(sent + 1));
            }
            self.tasks.remove(&follower);
            proof {
                let gone = Set::new(
                    |id: Seq<char>| exists|k: int| 0 <= k < sent && all[k].0@ == id,
                );
                let more = Set::new(
                    |id: Seq<char>| exists|k: int| 0 <= k < sent + 1 && all[k].0@ == id,
                );
                assert(more =~= gone.insert(follower@)) by {
                    assert forall|id: Seq<char>| more.contains(id) <==> (gone.contains(id) || id
                        == follower@) by {
                        if more.contains(id) {
                            let k = choose|k: int| 0 <= k < sent + 1 && all[k].0@ == id;
                            if k < sent {
                                assert(gone.contains(id));
                            }
                        }
                        if gone.contains(id) {
                            let k = choose|k: int| 0 <= k < sent && all[k].0@ == id;
                            assert(0 <= k < sent + 1 && all[k].0@ == id);
                        }
                        if id == follower@ {
                            assert(0 <= sent < sent + 1 && all[sent].0@ == id);
                        }
                    }
                }
                assert(self.tasks@ =~= old(self).tasks().difference(more));
            }
            let message = match log {
                Log::Prefix(snapshot) => Outgoing::InstallSnapshot { follower, prefix: snapshot },
                Log::Suffix(slice) => Outgoing::AppendEntries { follower, suffix: slice },
            };
            r.push(message);
            proof {
                sent = sent + 1;
            }
        }
        proof {
            assert(self.followers() == old(self).followers());
            assert(self.config() == old(self).config());
        }
        r
    }

    /// Follows a change of the configuration to `config`: its members, old
    /// and new, are the followers from now on. Those that were followers
    /// before keep what is known of them; of the others nothing is known
    /// yet.
    pub fn handle_config_updated(&mut self, config: &ClusterConfig)
        requires
            old(self).wf(),
        ensures
            final(self).wf(),
            final(self).config()@ == config@,
            final(self).followers() == Map::new(
                |id: Seq<char>| config@.knows(id),
                |id: Seq<char>|
                    if old(self).followers().contains_key(id) {
                        old(self).followers()[id]
                    } else {
                        Follower::spec_new()
                    },
            ),
            final(self).tasks() == old(self).tasks(),
            final(self).spec_latest_hearbeat_ack() == old(self).spec_latest_hearbeat_ack(),
            final(self).spec_last_broadcast_seq_no() == old(self).spec_last_broadcast_seq_no(),
    {
        let ghost known = old(self).followers();
        // Add
        let members = config.members();
        let mut k: usize = 0;
        while k < members.len()
            invariant
                k <= members.len(),
                self.well_kept(),
                self.config == old(self).config,
                self.tasks == old(self).tasks,
                self.latest_hearbeat_ack == old(self).latest_hearbeat_ack,
                self.last_broadcast_seq_no == old(self).last_broadcast_seq_no,
                forall|id: Seq<char>|
                    #![trigger self.followers().contains_key(id)]
                    self.followers().contains_key(id) <==> (known.contains_key(id) || ids_of(
                        members@,
                    ).take(k as int).contains(id)),
                forall|id: Seq<char>|
                    #![trigger self.followers().contains_key(id)]
                    self.followers().contains_key(id) ==> self.followers()[id] == if known.contains_key(
                        id,
                    ) {
                        known[id]
                    } else {
                        Follower::spec_new()
                    },
            decreases members.len() - k,
        {
            let id = &members[k];
            let ghost before = self.followers();
            let ghost part = ids_of(members@).take(k as int);
            let ghost more = ids_of(members@).take(k + 1);
            proof {
                assert(more =~= part.push(id@));
                assert forall|x: Seq<char>| more.contains(x) <==> (part.contains(x) || x
                    == id@) by {
                    if more.contains(x) {
                        let p = choose|p: int| 0 <= p < more.len() && more[p] == x;
                        if p < part.len() {
                            assert(part[p] == x);
                        }
                    }
                    if part.contains(x) {
                        let p = choose|p: int| 0 <= p < part.len() && part[p] == x;
                        assert(more[p] == x);
                    }
                    if x == id@ {
                        assert(more[k as int] == x);
                    }
                }
            }
            if self.position(id).is_none() {
                let fresh = id.clone();
                proof {
                    self.lemma_pushed(fresh, Follower::spec_new());
                }
                self.ids.push(fresh);
                self.states.push(Follower::new());
                assert(self.followers() == before.insert(id@, Follower::spec_new()));
            } else {
                assert(self.followers() == before);
                assert(before.contains_key(id@));
            }
            proof {
                let now = self.followers();
                assert forall|x: Seq<char>|
                    #![trigger now.contains_key(x)]
                    now.contains_key(x) <==> (known.contains_key(x) || more.contains(x)) by {
                    assert(before.contains_key(x) <==> (known.contains_key(x) || part.contains(x)));
                    assert(more.contains(x) <==> (part.contains(x) || x == id@));
                }
                assert forall|x: Seq<char>| now.contains_key(x) implies now[x] == if known.contains_key(
                    x,
                ) {
                    known[x]
                } else {
                    Follower::spec_new()
                } by {
                    assert(before.contains_key(x) <==> (known.contains_key(x) || part.contains(x)));
                    if before.contains_key(x) {
                        assert(before[x] == if known.contains_key(x) {
                            known[x]
                        } else {
                            Follower::spec_new()
                        });
                    }
                }
            }
            k += 1;
        }
        // Delete
        let mut ids: Vec<NodeId> = Vec::new();
        let mut states: Vec<Follower> = Vec::new();
        let ghost grown = self.followers();
        proof {
            assert(ids_of(members@).take(members@.len() as int) =~= ids_of(members@));
            assert forall|id: Seq<char>| config@.knows(id) <==> ids_of(members@).contains(id) by {
                assert(ids_of(members@).to_set().contains(id) <==> ids_of(members@).contains(id));
                assert(config@.new.to_set().contains(id) <==> config@.new.contains(id));
                assert(config@.old.to_set().contains(id) <==> config@.old.contains(id));
            }
        }
        let mut i: usize = 0;
        while i < self.ids.len()
            invariant
                i <= self.ids.len(),
                self.well_kept(),
                grown == self.followers(),
                ids@.len() == states@.len(),
                ids_of(ids@).no_duplicates(),
                forall|id: Seq<char>|
                    #![trigger ids_of(ids@).contains(id)]
                    ids_of(ids@).contains(id) <==> (ids_of(self.ids@).take(i as int).contains(id)
                        && config@.knows(id)),
                forall|id: Seq<char>|
                    #![trigger ids_of(ids@).contains(id)]
                    ids_of(ids@).contains(id) ==> table(ids_of(ids@), states@)[id] == grown[id],
            decreases self.ids.len() - i,
        {
            let ghost all = ids_of(self.ids@);
            let ghost part = all.take(i as int);
            let ghost more = all.take(i + 1);
            let ghost kept = ids_of(ids@);
            let ghost kept_states = states@;
            proof {
                assert(more =~= part.push(all[i as int]));
                assert forall|x: Seq<char>| more.contains(x) <==> (part.contains(x) || x
                    == all[i as int]) by {
                    if more.contains(x) {
                        let p = choose|p: int| 0 <= p < more.len() && more[p] == x;
                        if p < part.len() {
                            assert(part[p] == x);
                        }
                    }
                    if part.contains(x) {
                        let p = choose|p: int| 0 <= p < part.len() && part[p] == x;
                        assert(more[p] == x);
                    }
                    if x == all[i as int] {
                        assert(more[i as int] == x);
                    }
                }
                lemma_table_at(all, self.states@, i as int);
            }
            if config.is_known_node(&self.ids[i]) {
                let id = self.ids[i].clone();
                let state = self.states[i];
                proof {
                    let wider = kept.push(id@);
                    assert(ids_of(ids@.push(id)) =~= wider);
                    assert(!kept.contains(id@)) by {
                        if kept.contains(id@) {
                            assert(part.contains(id@));
                            let p = choose|p: int| 0 <= p < part.len() && part[p] == id@;
                            assert(all[p] == all[i as int]);
                        }
                    }
                    assert(wider.no_duplicates());
                    assert forall|x: Seq<char>| wider.contains(x) <==> (kept.contains(x) || x
                        == id@) by {
                        if wider.contains(x) {
                            let p = choose|p: int| 0 <= p < wider.len() && wider[p] == x;
                            if p < kept.len() {
                                assert(kept[p] == x);
                            }
                        }
                        if kept.contains(x) {
                            let p = choose|p: int| 0 <= p < kept.len() && kept[p] == x;
                            assert(wider[p] == x);
                        }
                        if x == id@ {
                            assert(wider[kept.len() as int] == x);
                        }
                    }
                    assert forall|x: Seq<char>| wider.contains(x) implies table(
                        wider,
                        kept_states.push(state),
                    )[x] == grown[x] by {
                        let p = choose|p: int| 0 <= p < wider.len() && wider[p] == x;
                        lemma_table_at(wider, kept_states.push(state), p);
                        if p < kept.len() {
                            assert(kept[p] == x);
                            assert(kept.contains(x));
                            lemma_table_at(kept, kept_states, p);
                            assert(table(kept, kept_states)[x] == grown[x]);
                        } else {
                            assert(x == all[i as int]);
                            assert(grown[x] == state);
                        }
                    }
                }
                ids.push(id);
                states.push(state);
                assert(ids_of(ids@) == kept.push(all[i as int]));
                assert(states@ == kept_states.push(state));
            } else {
                assert(!config@.knows(all[i as int]));
            }
            proof {
                let now = ids_of(ids@);
                assert forall|x: Seq<char>|
                    #![trigger now.contains(x)]
                    now.contains(x) <==> (more.contains(x) && config@.knows(x)) by {
                    assert(kept.contains(x) <==> (part.contains(x) && config@.knows(x)));
                    assert(more.contains(x) <==> (part.contains(x) || x == all[i as int]));
                    if config@.knows(all[i as int]) {
                        assert(now.contains(x) <==> (kept.contains(x) || x == all[i as int]));
                    }
                }
                assert forall|x: Seq<char>| now.contains(x) implies table(now, states@)[x]
                    == grown[x] by {
                    if config@.knows(all[i as int]) {
                        assert(now.contains(x) <==> (kept.contains(x) || x == all[i as int]));
                    } else {
                        assert(kept.contains(x));
                        assert(table(kept, kept_states)[x] == grown[x]);
                    }
                }
            }
            i += 1;
        }
        proof {
            assert(ids_of(self.ids@).take(self.ids@.len() as int) =~= ids_of(self.ids@));
            let made = table(ids_of(ids@), states@);
            let wanted = Map::new(
                |id: Seq<char>| config@.knows(id),
                |id: Seq<char>|
                    if known.contains_key(id) {
                        known[id]
                    } else {
                        Follower::spec_new()
                    },
            );
            assert forall|id: Seq<char>| made.contains_key(id) <==> wanted.contains_key(id) by {
                assert(grown.contains_key(id) <==> ids_of(self.ids@).contains(id));
                assert(grown.contains_key(id) <==> (known.contains_key(id) || ids_of(
                    members@,
                ).contains(id)));
                assert(ids_of(ids@).contains(id) <==> (ids_of(self.ids@).contains(id)
                    && config@.knows(id)));
                assert(config@.knows(id) <==> ids_of(members@).contains(id));
            }
            assert forall|id: Seq<char>| made.contains_key(id) implies made[id] == wanted[id] by {
                assert(ids_of(ids@).contains(id));
                assert(made[id] == grown[id]);
                assert(grown.contains_key(id));
            }
            assert(made =~= wanted);
        }
        self.ids = ids;
        self.states = states;
        self.config = config.clone();
    }

    /// A follower that is not held yet can be added at the end.
    proof fn lemma_pushed(&self, id: NodeId, state: Follower)
        requires
            self.well_kept(),
            !self.followers().contains_key(id@),
        ensures
            ids_of(self.ids@.push(id)).no_duplicates(),
            table(ids_of(self.ids@.push(id)), self.states@.push(state)) == self.followers().insert(
                id@,
                state,
            ),
    {
        let ids = ids_of(self.ids@);
        let wider = ids.push(id@);
        assert(ids_of(self.ids@.push(id)) =~= wider);
        assert(!ids.contains(id@));
        assert(wider.no_duplicates());
        let after = table(wider, self.states@.push(state));
        let wanted = self.followers().insert(id@, state);
        assert forall|x: Seq<char>| wider.contains(x) <==> (ids.contains(x) || x == id@) by {
            if wider.contains(x) {
                let p = choose|p: int| 0 <= p < wider.len() && wider[p] == x;
                if p < ids.len() {
                    assert(ids[p] == x);
                }
            }
            if ids.contains(x) {
                let p = choose|p: int| 0 <= p < ids.len() && ids[p] == x;
                assert(wider[p] == x);
            }
            if x == id@ {
                assert(wider[ids.len() as int] == x);
            }
        }
        assert forall|x: Seq<char>| after.contains_key(x) implies after[x] == wanted[x] by {
            let p = choose|p: int| 0 <= p < wider.len() && wider[p] == x;
            lemma_table_at(wider, self.states@.push(state), p);
            if p < ids.len() {
                lemma_table_at(ids, self.states@, p);
            }
        }
        assert(after =~= wanted);
    }

    /// Every member of the configuration, old or new, is among the
    /// identifiers held.
    proof fn lemma_members_held(&self)
        requires
            self.wf(),
        ensures
            forall|i: int|
                0 <= i < self.config.spec_new_members().nodes().len() ==> ids_of(
                    self.ids@,
                ).contains(#[trigger] self.config.spec_new_members().nodes()[i]@),
            forall|i: int|
                0 <= i < self.config.spec_old_members().nodes().len() ==> ids_of(
                    self.ids@,
                ).contains(#[trigger] self.config.spec_old_members().nodes()[i]@),
    {
        let new = self.config.spec_new_members();
        let old = self.config.spec_old_members();
        assert forall|i: int| 0 <= i < new.nodes().len() implies ids_of(self.ids@).contains(
            #[trigger] new.nodes()[i]@,
        ) by {
            assert(new.ids()[i] == new.nodes()[i]@);
            assert(self.config@.knows(new.ids()[i]));
            assert(self.followers().contains_key(new.ids()[i]));
        }
        assert forall|i: int| 0 <= i < old.nodes().len() implies ids_of(self.ids@).contains(
            #[trigger] old.nodes()[i]@,
        ) by {
            assert(old.ids()[i] == old.nodes()[i]@);
            assert(self.config@.knows(old.ids()[i]));
            assert(self.followers().contains_key(old.ids()[i]));
        }
    }

    /// Setting the state at a place gives the follower there that state
    /// and leaves the others as they are.
    proof fn lemma_state_set(&self, i: int, state: Follower)
        requires
            self.well_kept(),
            0 <= i < self.ids@.len(),
        ensures
            table(ids_of(self.ids@), self.states@.update(i, state)) == self.followers().insert(
                ids_of(self.ids@)[i],
                state,
            ),
    {
        let ids = ids_of(self.ids@);
        let after = table(ids, self.states@.update(i, state));
        let wanted = self.followers().insert(ids[i], state);
        assert forall|id: Seq<char>| after.contains_key(id) implies after[id] == wanted[id] by {
            let k = choose|k: int| 0 <= k < ids.len() && ids[k] == id;
            lemma_table_at(ids, self.states@, k);
            lemma_table_at(ids, self.states@.update(i, state), k);
        }
        assert(ids.contains(ids[i]));
        assert(after =~= wanted);
    }
}

/// The place of `node` among `ids`, which hold it.
fn find_slot(ids: &Vec<NodeId>, node: &NodeId) -> (r: usize)
    requires
        ids_of(ids@).contains(node@),
    ensures
        r < ids@.len(),
        ids_of(ids@)[r as int] == node@,
{
    let mut i: usize = 0;
    while i < ids.len()
        invariant
            i <= ids.len(),
            ids_of(ids@).contains(node@),
            forall|k: int| 0 <= k < i ==> ids_of(ids@)[k] != node@,
        decreases ids.len() - i,
    {
        if ids[i].same(node) {
            assert(ids_of(ids@)[i as int] == node@);
            return i;
        }
        i += 1;
    }
    proof {
        let k = choose|k: int| 0 <= k < ids_of(ids@).len() && ids_of(ids@)[k] == node@;
        assert(ids_of(ids@)[k] != node@);
    }
    0
}

} // verus!
