//! Cluster configurations.
//!
//! A configuration holds the members of a cluster and, while the membership
//! changes, the members before the change and the stage that the change has
//! reached. It decides what a value needs to count as agreed by the cluster.
use vstd::prelude::*;
use vstd::std_specs::cmp::PartialEqSpecImpl;
use crate::members::ids_of;
use crate::members::strictly_ordered;
use crate::node::NodeId;
use crate::quorum::is_agreed;
use crate::quorum::is_max_agreed;
use crate::quorum::lemma_max_agreed_unique;
use crate::quorum::lemma_supporters_ascending;
use crate::quorum::lemma_supporters_occurs;
use crate::quorum::max_agreed;
use crate::quorum::sorted_copy;
use crate::quorum::spec_majority;

pub use crate::members::ClusterMembers;

verus! {

/// The stage of a change of membership.
#[derive(Debug, Clone, Copy, PartialEq, Eq, Structural)]
pub enum ClusterState {
    /// No change is under way.
    Stable,
    /// The new members are receiving the log. Only the old members vote.
    CatchUp,
    /// The old and the new members both have to agree.
    Joint,
}

impl ClusterState {
    /// Whether no change is under way.
    pub fn is_stable(self) -> (r: bool)
        ensures
            r == (self == ClusterState::Stable),
    {
        self == ClusterState::Stable
    }

    /// Whether the old and the new members both have to agree.
    pub fn is_joint(self) -> (r: bool)
        ensures
            r == (self == ClusterState::Joint),
    {
        self == ClusterState::Joint
    }
}

/// What `f` may answer for each of `nodes` in turn.
pub open spec fn answers<F: Fn(&NodeId) -> u64>(f: F, nodes: Seq<NodeId>, values: Seq<u64>) -> bool {
    &&& values.len() == nodes.len()
    &&& forall|i: int| 0 <= i < nodes.len() ==> call_ensures(f, (&nodes[i],), #[trigger] values[i])
}

/// Whether `r` is the greatest value that a strict majority of `nodes`
/// supports, for some answers of `f`.
pub open spec fn decided_by<F: Fn(&NodeId) -> u64>(f: F, nodes: Seq<NodeId>, r: u64) -> bool {
    exists|values: Seq<u64>| #[trigger] answers(f, nodes, values) && is_max_agreed(values, r)
}

/// Whether `f` may be asked about each of `nodes`.
pub open spec fn can_ask<F: Fn(&NodeId) -> u64>(f: F, nodes: Seq<NodeId>) -> bool {
    forall|i: int| 0 <= i < nodes.len() ==> call_requires(f, (&#[trigger] nodes[i],))
}

/// The values that `g` gives to the identifiers of `nodes`.
pub open spec fn values_of(nodes: Seq<NodeId>, g: spec_fn(Seq<char>) -> u64) -> Seq<u64> {
    nodes.map_values(|n: NodeId| g(n@))
}

/// The smaller of two values.
pub open spec fn spec_min(a: u64, b: u64) -> u64 {
    if a <= b {
        a
    } else {
        b
    }
}

/// Where `f` answers for each node what `g` gives to its identifier, the
/// value decided is the one that `g` decides.
pub proof fn lemma_decided_by_function<F: Fn(&NodeId) -> u64>(
    f: F,
    g: spec_fn(Seq<char>) -> u64,
    nodes: Seq<NodeId>,
    r: u64,
)
    requires
        decided_by(f, nodes, r),
        forall|n: NodeId, v: u64| call_ensures(f, (&n,), v) ==> v == g(n@),
    ensures
        r == max_agreed(values_of(nodes, g)),
        is_max_agreed(values_of(nodes, g), r),
{
    let values = choose|values: Seq<u64>| #[trigger]
        answers(f, nodes, values) && is_max_agreed(values, r);
    assert(values =~= values_of(nodes, g)) by {
        assert forall|i: int| 0 <= i < values.len() implies values[i] == values_of(nodes, g)[i] by {
            assert(call_ensures(f, (&nodes[i],), values[i]));
        }
    }
    lemma_max_agreed_unique(values, r, r);
}

/// The size of the smallest strict majority among `n` members:
/// `1 + n / 2`.
pub fn majority(n: usize) -> (m: usize)
    ensures
        m == spec_majority(n as nat),
        n >= 1 ==> 1 <= m <= n,
{
    1 + n / 2
}

/// The greatest value that a strict majority of `v` supports.
///
/// An entry `e` supports each `x <= e`. With the entries in ascending
/// order, this is the entry at `v.len() - majority(v.len())`.
pub fn max_of_agreed_value(v: Vec<u64>) -> (r: u64)
    requires
        v.len() >= 1,
    ensures
        is_max_agreed(v@, r),
        r == max_agreed(v@),
        v@.contains(r),
{
    let m: usize = majority(v.len());
    let w: Vec<u64> = sorted_copy(&v);
    let k: usize = w.len() - m;
    let r: u64 = w[k];
    proof {
        lemma_supporters_ascending(w@, k as int, r);
        assert forall|x: u64| is_agreed(v@, x) implies x <= r by {
            if x > r {
                lemma_supporters_ascending(w@, k as int, x);
            }
        }
        lemma_supporters_occurs(v@, r);
        lemma_supporters_occurs(w@, r);
        assert(w@[k as int] == r);
    }
    r
}


/// The greatest value that a strict majority of `members` supports, where
/// `f` says which value each member supports.
pub fn median<F: Fn(&NodeId) -> u64>(members: &ClusterMembers, f: &F) -> (r: u64)
    requires
        members.nodes().len() >= 1,
        can_ask(*f, members.nodes()),
    ensures
        decided_by(*f, members.nodes(), r),
{
    let n: usize = members.len();
    let mut mapped: Vec<u64> = Vec::new();
    let mut i: usize = 0;
    while i < n
        invariant
            i <= n,
            n == members.nodes().len(),
            can_ask(*f, members.nodes()),
            answers(*f, members.nodes().take(i as int), mapped@),
        decreases n - i,
    {
        let node = members.get(i);
        let value: u64 = f(node);
        proof {
            let nodes = members.nodes();
            let grown = mapped@.push(value);
            assert(answers(*f, nodes.take(i + 1), grown)) by {
                assert forall|k: int| 0 <= k < i + 1 implies call_ensures(
                    *f,
                    (&nodes.take(i + 1)[k],),
                    #[trigger] grown[k],
                ) by {
                    if k < i {
                        assert(mapped@[k] == grown[k]);
                        assert(nodes.take(i as int)[k] == nodes.take(i + 1)[k]);
                    }
                }
            }
        }
        mapped.push(value);
        i += 1;
    }
    proof {
        assert(members.nodes().take(n as int) =~= members.nodes());
    }
    max_of_agreed_value(mapped)
}

/// What a configuration is: the identifiers of its new and of its old
/// members, each in ascending order, and its state.
pub struct ClusterConfigView {
    pub new: Seq<Seq<char>>,
    pub old: Seq<Seq<char>>,
    pub state: ClusterState,
}

/// The configuration of a cluster.
///
/// `Stable` is meant to go with no old members, and `Joint` with old and
/// new members; [`ClusterConfig::with_state`] takes any combination.
#[derive(Debug)]
pub struct ClusterConfig {
    new: ClusterMembers,
    old: ClusterMembers,
    state: ClusterState,
}

impl View for ClusterConfig {
    type V = ClusterConfigView;

    open spec fn view(&self) -> ClusterConfigView {
        ClusterConfigView {
            new: self.spec_new_members().ids(),
            old: self.spec_old_members().ids(),
            state: self.spec_state(),
        }
    }
}

impl ClusterConfigView {
    /// The identifiers of the members that vote alone in `CatchUp`: the new
    /// members when stable, the old ones during a change.
    pub open spec fn primary(self) -> Seq<Seq<char>> {
        match self.state {
            ClusterState::Stable => self.new,
            ClusterState::CatchUp => self.old,
            ClusterState::Joint => self.old,
        }
    }

    /// Whether the configuration has no old members unless a change is
    /// under way.
    pub open spec fn settled(self) -> bool {
        self.state == ClusterState::Stable ==> self.old.len() == 0
    }

    /// Whether `id` is a new or an old member.
    pub open spec fn knows(self, id: Seq<char>) -> bool {
        self.new.contains(id) || self.old.contains(id)
    }

    /// The configuration that begins the change to `new`.
    pub open spec fn started(self, new: Seq<Seq<char>>) -> ClusterConfigView {
        ClusterConfigView { new, old: self.primary(), state: ClusterState::CatchUp }
    }

    /// The configuration at the next stage of the change.
    pub open spec fn next(self) -> ClusterConfigView {
        match self.state {
            ClusterState::Stable => self,
            ClusterState::CatchUp => ClusterConfigView { state: ClusterState::Joint, ..self },
            ClusterState::Joint => ClusterConfigView {
                new: self.new,
                old: Seq::empty(),
                state: ClusterState::Stable,
            },
        }
    }
}

impl ClusterConfig {
    /// The new members.
    pub closed spec fn spec_new_members(&self) -> ClusterMembers {
        self.new
    }

    /// The old members.
    pub closed spec fn spec_old_members(&self) -> ClusterMembers {
        self.old
    }

    /// The state.
    pub closed spec fn spec_state(&self) -> ClusterState {
        self.state
    }

    /// The members that vote alone in `CatchUp`.
    pub open spec fn spec_primary_members(&self) -> ClusterMembers {
        match self.spec_state() {
            ClusterState::Stable => self.spec_new_members(),
            ClusterState::CatchUp => self.spec_old_members(),
            ClusterState::Joint => self.spec_old_members(),
        }
    }

    /// Whether each set of members that [`Self::consensus_value`] consults
    /// has a member.
    pub open spec fn spec_can_decide(&self) -> bool {
        match self.spec_state() {
            ClusterState::Stable => self.spec_new_members().nodes().len() >= 1,
            ClusterState::CatchUp => self.spec_old_members().nodes().len() >= 1,
            ClusterState::Joint => self.spec_new_members().nodes().len() >= 1
                && self.spec_old_members().nodes().len() >= 1,
        }
    }

    /// Whether each set of members that [`Self::full_consensus_value`]
    /// consults has a member.
    pub open spec fn spec_can_decide_fully(&self) -> bool {
        match self.spec_state() {
            ClusterState::Stable => self.spec_new_members().nodes().len() >= 1,
            _ => self.spec_new_members().nodes().len() >= 1 && self.spec_old_members().nodes().len()
                >= 1,
        }
    }

    /// What [`Self::consensus_value`] may return where `f` says which value
    /// each member supports.
    pub open spec fn consensus_is<F: Fn(&NodeId) -> u64>(&self, f: F, r: u64) -> bool {
        match self.spec_state() {
            ClusterState::Stable => decided_by(f, self.spec_new_members().nodes(), r),
            ClusterState::CatchUp => decided_by(f, self.spec_old_members().nodes(), r),
            ClusterState::Joint => self.both_decide(f, r),
        }
    }

    /// Whether `r` is the smaller of what the new and what the old members
    /// agree on, for some answers of `f`.
    pub open spec fn both_decide<F: Fn(&NodeId) -> u64>(&self, f: F, r: u64) -> bool {
        exists|a: u64, b: u64|
            #![trigger
                decided_by(f, self.spec_new_members().nodes(), a),
                decided_by(f, self.spec_old_members().nodes(), b)]
            decided_by(f, self.spec_new_members().nodes(), a) && decided_by(
                f,
                self.spec_old_members().nodes(),
                b,
            ) && r == spec_min(a, b)
    }

    /// What [`Self::full_consensus_value`] may return where `f` says which
    /// value each member supports.
    pub open spec fn full_consensus_is<F: Fn(&NodeId) -> u64>(&self, f: F, r: u64) -> bool {
        match self.spec_state() {
            ClusterState::Stable => decided_by(f, self.spec_new_members().nodes(), r),
            _ => self.both_decide(f, r),
        }
    }

    /// The consensus value where member `id` supports `g(id)`: the greatest
    /// value that a strict majority supports, among the new members when
    /// stable, among the old ones in `CatchUp`, and in `Joint` the smaller
    /// of the two.
    pub open spec fn spec_consensus_value(&self, g: spec_fn(Seq<char>) -> u64) -> u64 {
        let new = max_agreed(values_of(self.spec_new_members().nodes(), g));
        let old = max_agreed(values_of(self.spec_old_members().nodes(), g));
        match self.spec_state() {
            ClusterState::Stable => new,
            ClusterState::CatchUp => old,
            ClusterState::Joint => spec_min(new, old),
        }
    }

    /// The full consensus value where member `id` supports `g(id)`: as
    /// [`Self::spec_consensus_value`], but in `CatchUp` too the smaller of
    /// what the new and what the old members agree on.
    pub open spec fn spec_full_consensus_value(&self, g: spec_fn(Seq<char>) -> u64) -> u64 {
        let new = max_agreed(values_of(self.spec_new_members().nodes(), g));
        let old = max_agreed(values_of(self.spec_old_members().nodes(), g));
        match self.spec_state() {
            ClusterState::Stable => new,
            _ => spec_min(new, old),
        }
    }

    /// Where `f` answers for each node what `g` gives to its identifier,
    /// the consensus value is the one that `g` decides.
    pub proof fn lemma_consensus_by_function<F: Fn(&NodeId) -> u64>(
        &self,
        f: F,
        g: spec_fn(Seq<char>) -> u64,
        r: u64,
    )
        requires
            forall|n: NodeId, v: u64| call_ensures(f, (&n,), v) ==> v == g(n@),
        ensures
            self.consensus_is(f, r) ==> r == self.spec_consensus_value(g),
            self.full_consensus_is(f, r) ==> r == self.spec_full_consensus_value(g),
    {
        let new = self.spec_new_members().nodes();
        let old = self.spec_old_members().nodes();
        if self.consensus_is(f, r) {
            match self.spec_state() {
                ClusterState::Stable => lemma_decided_by_function(f, g, new, r),
                ClusterState::CatchUp => lemma_decided_by_function(f, g, old, r),
                ClusterState::Joint => {
                    let (a, b) = choose|a: u64, b: u64|
                        #![trigger decided_by(f, new, a), decided_by(f, old, b)]
                        decided_by(f, new, a) && decided_by(f, old, b) && r == spec_min(a, b);
                    lemma_decided_by_function(f, g, new, a);
                    lemma_decided_by_function(f, g, old, b);
                },
            }
        }
        if self.full_consensus_is(f, r) {
            match self.spec_state() {
                ClusterState::Stable => lemma_decided_by_function(f, g, new, r),
                _ => {
                    let (a, b) = choose|a: u64, b: u64|
                        #![trigger decided_by(f, new, a), decided_by(f, old, b)]
                        decided_by(f, new, a) && decided_by(f, old, b) && r == spec_min(a, b);
                    lemma_decided_by_function(f, g, new, a);
                    lemma_decided_by_function(f, g, old, b);
                },
            }
        }
    }

    /// The full consensus value never exceeds the consensus value: what
    /// the old and the new members both agree on, those who vote agree on.
    pub proof fn lemma_full_consensus_at_most_consensus(&self, g: spec_fn(Seq<char>) -> u64)
        ensures
            self.spec_full_consensus_value(g) <= self.spec_consensus_value(g),
    {
    }

    /// Whether each set of members that [`Self::consensus_value`] consults
    /// has a member.
    pub fn can_decide(&self) -> (r: bool)
        ensures
            r == self.spec_can_decide(),
    {
        match self.state {
            ClusterState::Stable => self.new.len() >= 1,
            ClusterState::CatchUp => self.old.len() >= 1,
            ClusterState::Joint => self.new.len() >= 1 && self.old.len() >= 1,
        }
    }

    /// Whether each set of members that [`Self::full_consensus_value`]
    /// consults has a member.
    pub fn can_decide_fully(&self) -> (r: bool)
        ensures
            r == self.spec_can_decide_fully(),
    {
        match self.state {
            ClusterState::Stable => self.new.len() >= 1,
            _ => self.new.len() >= 1 && self.old.len() >= 1,
        }
    }

    /// The state of the configuration.
    pub fn state(&self) -> (r: ClusterState)
        ensures
            r == self@.state,
    {
        self.state
    }

    /// The members after the change. When stable, the members.
    pub fn new_members(&self) -> (r: &ClusterMembers)
        ensures
            *r == self.spec_new_members(),
            r.ids() == self@.new,
    {
        &self.new
    }

    /// The members before the change. When stable, meant to be empty.
    pub fn old_members(&self) -> (r: &ClusterMembers)
        ensures
            *r == self.spec_old_members(),
            r.ids() == self@.old,
    {
        &self.old
    }

    /// The members that vote alone in `CatchUp`: the new members when
    /// stable, the old ones during a change.
    pub fn primary_members(&self) -> (r: &ClusterMembers)
        ensures
            *r == self.spec_primary_members(),
            r.ids() == self@.primary(),
    {
        match self.state {
            ClusterState::Stable => &self.new,
            ClusterState::CatchUp => &self.old,
            ClusterState::Joint => &self.old,
        }
    }

    /// All members, old and new, in ascending order and each once.
    pub fn members(&self) -> (r: Vec<NodeId>)
        ensures
            strictly_ordered(ids_of(r@)),
            ids_of(r@).to_set() == self@.new.to_set().union(self@.old.to_set()),
    {
        let all = self.new.union(&self.old);
        all.to_vec()
    }

    /// Whether `node` is a new or an old member.
    pub fn is_known_node(&self, node: &NodeId) -> (r: bool)
        ensures
            r == self@.knows(node@),
    {
        self.new.contains(node) || self.old.contains(node)
    }

    /// The stable configuration with `members`.
    pub fn new(members: ClusterMembers) -> (r: Self)
        ensures
            r@ == (ClusterConfigView {
                new: members.ids(),
                old: Seq::empty(),
                state: ClusterState::Stable,
            }),
            r@.settled(),
            r.spec_new_members() == members,
    {
        ClusterConfig { new: members, old: ClusterMembers::new(), state: ClusterState::Stable }
    }

    /// The configuration with the given members and state.
    pub fn with_state(
        new_members: ClusterMembers,
        old_members: ClusterMembers,
        state: ClusterState,
    ) -> (r: Self)
        ensures
            r@ == (ClusterConfigView { new: new_members.ids(), old: old_members.ids(), state }),
            r.spec_new_members() == new_members,
            r.spec_old_members() == old_members,
    {
        ClusterConfig { new: new_members, old: old_members, state }
    }

    /// The configuration that begins the change to the members `new`: in
    /// `CatchUp`, with the members that vote now as the old ones.
    pub fn start_config_change(&self, new: ClusterMembers) -> (r: Self)
        ensures
            r@ == self@.started(new.ids()),
            r@.settled(),
            r.spec_new_members() == new,
    {
        ClusterConfig { new, old: self.primary_members().clone(), state: ClusterState::CatchUp }
    }

    /// The configuration at the next stage: `CatchUp` becomes `Joint`,
    /// `Joint` becomes `Stable` and loses its old members, `Stable` stays.
    pub fn to_next_state(&self) -> (r: Self)
        ensures
            r@ == self@.next(),
            self@.settled() ==> r@.settled(),
    {
        match self.state {
            ClusterState::Stable => self.clone(),
            ClusterState::CatchUp => {
                let mut next = self.clone();
                next.state = ClusterState::Joint;
                next
            },
            ClusterState::Joint => {
                let mut next = self.clone();
                next.old = ClusterMembers::new();
                next.state = ClusterState::Stable;
                next
            },
        }
    }

    /// The consensus value of the cluster, where `f` says which value each
    /// member supports (and with it every smaller one).
    ///
    /// When stable, the greatest value that a strict majority of the
    /// members supports. In `CatchUp`, the same among the old members. In
    /// `Joint`, the smaller of what the new and what the old members agree
    /// on.
    pub fn consensus_value<F: Fn(&NodeId) -> u64>(&self, f: F) -> (r: u64)
        requires
            self.spec_can_decide(),
            can_ask(f, self.spec_new_members().nodes()),
            can_ask(f, self.spec_old_members().nodes()),
        ensures
            self.consensus_is(f, r),
    {
        match self.state {
            ClusterState::Stable => median(&self.new, &f),
            ClusterState::CatchUp => median(&self.old, &f),
            ClusterState::Joint => {
                let a: u64 = median(&self.new, &f);
                let b: u64 = median(&self.old, &f);
                if a <= b {
                    a
                } else {
                    b
                }
            },
        }
    }

    /// As [`Self::consensus_value`], but in `CatchUp` too the new and the
    /// old members both have to agree.
    pub fn full_consensus_value<F: Fn(&NodeId) -> u64>(&self, f: F) -> (r: u64)
        requires
            self.spec_can_decide_fully(),
            can_ask(f, self.spec_new_members().nodes()),
            can_ask(f, self.spec_old_members().nodes()),
        ensures
            self.full_consensus_is(f, r),
    {
        if self.state.is_stable() {
            median(&self.new, &f)
        } else {
            let a: u64 = median(&self.new, &f);
            let b: u64 = median(&self.old, &f);
            if a <= b {
                a
            } else {
                b
            }
        }
    }
}

impl Clone for ClusterConfig {
    fn clone(&self) -> (r: Self)
        ensures
            r@ == self@,
    {
        ClusterConfig { new: self.new.clone(), old: self.old.clone(), state: self.state }
    }
}

impl PartialEq for ClusterConfig {
    fn eq(&self, other: &Self) -> (r: bool) {
        self.new == other.new && self.old == other.old && self.state == other.state
    }
}

impl PartialEqSpecImpl for ClusterConfig {
    open spec fn obeys_eq_spec() -> bool {
        true
    }

    /// Two configurations are equal where they have the same members, old
    /// and new, and the same state.
    open spec fn eq_spec(&self, other: &Self) -> bool {
        self@ == other@
    }
}

impl Eq for ClusterConfig {

}

} // verus!
