//! The members of a cluster: a set of node identifiers, held in ascending
//! order so that it is always walked in the same order.
use vstd::prelude::*;
use crate::node::NodeId;
use crate::node::id_before;
use crate::node::lemma_id_before_strict_total;
use vstd::std_specs::cmp::PartialEqSpecImpl;

verus! {

/// The identifiers of `nodes`, one for each in turn.
pub open spec fn ids_of(nodes: Seq<NodeId>) -> Seq<Seq<char>> {
    nodes.map_values(|n: NodeId| n@)
}

/// Whether `ids` is strictly ascending in the order of identifiers.
pub open spec fn strictly_ordered(ids: Seq<Seq<char>>) -> bool {
    forall|i: int, j: int| 0 <= i < j < ids.len() ==> id_before(ids[i], ids[j])
}

/// A strictly ascending sequence holds no identifier twice.
pub proof fn lemma_strictly_ordered_distinct(ids: Seq<Seq<char>>)
    requires
        strictly_ordered(ids),
    ensures
        ids.no_duplicates(),
{
    assert forall|i: int, j: int| 0 <= i < ids.len() && 0 <= j < ids.len() && i != j implies ids[i]
        != ids[j] by {
        lemma_id_before_strict_total(ids[i], ids[j], ids[i]);
        if i < j {
            assert(id_before(ids[i], ids[j]));
        } else {
            assert(id_before(ids[j], ids[i]));
        }
    }
}

/// Two strictly ascending sequences with the same elements are equal.
pub proof fn lemma_strictly_ordered_unique(a: Seq<Seq<char>>, b: Seq<Seq<char>>)
    requires
        strictly_ordered(a),
        strictly_ordered(b),
        a.to_set() == b.to_set(),
    ensures
        a == b,
    decreases a.len(),
{
    if a.len() == 0 {
        if b.len() > 0 {
            assert(b.to_set().contains(b[0]));
            assert(a.contains(b[0]));
        }
        assert(a =~= b);
    } else if b.len() == 0 {
        assert(a.to_set().contains(a[0]));
        assert(b.contains(a[0]));
    } else {
        // The least element of each is its first.
        assert(a.to_set().contains(a[0]));
        assert(b.contains(a[0]));
        assert(b.to_set().contains(b[0]));
        assert(a.contains(b[0]));
        let i = choose|i: int| 0 <= i < b.len() && b[i] == a[0];
        let j = choose|j: int| 0 <= j < a.len() && a[j] == b[0];
        lemma_id_before_strict_total(a[0], b[0], a[0]);
        if i > 0 {
            assert(id_before(b[0], b[i]));
        }
        if j > 0 {
            assert(id_before(a[0], a[j]));
        }
        assert(a[0] == b[0]);
        let ra = a.drop_first();
        let rb = b.drop_first();
        assert(strictly_ordered(ra)) by {
            assert forall|p: int, q: int| 0 <= p < q < ra.len() implies id_before(ra[p], ra[q]) by {
                assert(id_before(a[p + 1], a[q + 1]));
            }
        }
        assert(strictly_ordered(rb)) by {
            assert forall|p: int, q: int| 0 <= p < q < rb.len() implies id_before(rb[p], rb[q]) by {
                assert(id_before(b[p + 1], b[q + 1]));
            }
        }
        assert(ra.to_set() =~= rb.to_set()) by {
            assert forall|x: Seq<char>| ra.contains(x) <==> rb.contains(x) by {
                lemma_id_before_strict_total(a[0], x, a[0]);
                if ra.contains(x) {
                    let p = choose|p: int| 0 <= p < ra.len() && ra[p] == x;
                    assert(id_before(a[0], a[p + 1]));
                    assert(a[p + 1] == x);
                    assert(a.to_set().contains(x));
                    assert(b.contains(x));
                    let q = choose|q: int| 0 <= q < b.len() && b[q] == x;
                    assert(q > 0);
                    assert(rb[q - 1] == x);
                }
                if rb.contains(x) {
                    let p = choose|p: int| 0 <= p < rb.len() && rb[p] == x;
                    assert(id_before(b[0], b[p + 1]));
                    assert(b[p + 1] == x);
                    assert(b.to_set().contains(x));
                    assert(a.contains(x));
                    let q = choose|q: int| 0 <= q < a.len() && a[q] == x;
                    assert(q > 0);
                    assert(ra[q - 1] == x);
                }
            }
        }
        lemma_strictly_ordered_unique(ra, rb);
        assert(a =~= seq![a[0]] + ra);
        assert(b =~= seq![b[0]] + rb);
    }
}

/// The members of a cluster.
///
/// A set of node identifiers. It holds each identifier once and lists its
/// members in ascending order of their identifiers.
#[derive(Debug)]
pub struct ClusterMembers {
    nodes: Vec<NodeId>,
}

impl View for ClusterMembers {
    type V = Set<Seq<char>>;

    /// The set of the members' identifiers.
    open spec fn view(&self) -> Set<Seq<char>> {
        self.ids().to_set()
    }
}

impl ClusterMembers {
    #[verifier::type_invariant]
    spec fn ordered(self) -> bool {
        strictly_ordered(ids_of(self.nodes@))
    }

    /// The members in the order in which the set lists them.
    pub closed spec fn nodes(&self) -> Seq<NodeId> {
        self.nodes@
    }

    /// The members' identifiers in the order in which the set lists them.
    pub open spec fn ids(&self) -> Seq<Seq<char>> {
        ids_of(self.nodes())
    }

    /// The set without members.
    pub fn new() -> (r: Self)
        ensures
            r.ids() == Seq::<Seq<char>>::empty(),
            r@ == Set::<Seq<char>>::empty(),
            strictly_ordered(r.ids()),
    {
        let r = ClusterMembers { nodes: Vec::new() };
        assert(r.ids() =~= Seq::<Seq<char>>::empty());
        assert(r@ =~= Set::<Seq<char>>::empty());
        r
    }

    /// The number of members.
    pub fn len(&self) -> (r: usize)
        ensures
            r == self.ids().len(),
            r == self@.len(),
            strictly_ordered(self.ids()),
    {
        proof {
            use_type_invariant(self);
            lemma_strictly_ordered_distinct(self.ids());
            self.ids().unique_seq_to_set();
        }
        self.nodes.len()
    }

    /// Whether the set has no member.
    pub fn is_empty(&self) -> (r: bool)
        ensures
            r == (self.ids().len() == 0),
            r == (self@ == Set::<Seq<char>>::empty()),
    {
        proof {
            if self.ids().len() == 0 {
                assert(self@ =~= Set::<Seq<char>>::empty());
            } else {
                assert(self@.contains(self.ids()[0]));
            }
        }
        self.nodes.len() == 0
    }

    /// The member at place `i` of the ascending order.
    pub fn get(&self, i: usize) -> (r: &NodeId)
        requires
            i < self.ids().len(),
        ensures
            *r == self.nodes()[i as int],
            r@ == self.ids()[i as int],
    {
        &self.nodes[i]
    }

    /// Whether `node` is a member.
    pub fn contains(&self, node: &NodeId) -> (r: bool)
        ensures
            r == self@.contains(node@),
    {
        let mut i: usize = 0;
        while i < self.nodes.len()
            invariant
                i <= self.nodes.len(),
                forall|k: int| 0 <= k < i ==> self.ids()[k] != node@,
            decreases self.nodes.len() - i,
        {
            if self.nodes[i].same(node) {
                assert(self.ids()[i as int] == node@);
                return true;
            }
            i += 1;
        }
        false
    }

    /// Adds `node` to the set. Returns whether it was not a member before.
    pub fn insert(&mut self, node: NodeId) -> (r: bool)
        ensures
            final(self)@ == old(self)@.insert(node@),
            r == !old(self)@.contains(node@),
            final(self).ids().len() == old(self).ids().len() + if r {
                1int
            } else {
                0int
            },
            strictly_ordered(final(self).ids()),
    {
        proof {
            use_type_invariant(&*self);
        }
        let mut j: usize = 0;
        while j < self.nodes.len() && self.nodes[j].before(&node)
            invariant
                j <= self.nodes.len(),
                forall|k: int| 0 <= k < j ==> id_before(self.ids()[k], node@),
                *self == *old(self),
            decreases self.nodes.len() - j,
        {
            j += 1;
        }
        let ghost before = self.ids();
        if j < self.nodes.len() && self.nodes[j].same(&node) {
            proof {
                assert(before[j as int] == node@);
                assert(self@.insert(node@) =~= self@);
            }
            return false;
        }
        proof {
            let after = before.insert(j as int, node@);
            assert(ids_of(self.nodes@.insert(j as int, node)) =~= after);
            assert forall|k: int| j <= k < before.len() implies id_before(node@, before[k]) by {
                lemma_id_before_strict_total(node@, before[j as int], before[k]);
                if k > j {
                    assert(id_before(before[j as int], before[k]));
                }
            }
            assert(strictly_ordered(after)) by {
                assert forall|p: int, q: int| 0 <= p < q < after.len() implies id_before(
                    after[p],
                    after[q],
                ) by {
                    if p < j && q > j {
                        assert(id_before(before[p], node@));
                        assert(id_before(node@, before[q - 1]));
                        lemma_id_before_strict_total(before[p], node@, before[q - 1]);
                    } else if p < j && q < j {
                        assert(id_before(before[p], before[q]));
                    } else if p > j {
                        assert(id_before(before[p - 1], before[q - 1]));
                    }
                }
            }
            assert(!before.contains(node@)) by {
                assert forall|k: int| 0 <= k < before.len() implies before[k] != node@ by {
                    lemma_id_before_strict_total(node@, before[k], node@);
                }
            }
            assert(after.to_set() =~= before.to_set().insert(node@)) by {
                assert forall|x: Seq<char>| after.contains(x) <==> (before.contains(x) || x
                    == node@) by {
                    if after.contains(x) {
                        let p = choose|p: int| 0 <= p < after.len() && after[p] == x;
                        if p < j {
                            assert(before[p] == x);
                        } else if p > j {
                            assert(before[p - 1] == x);
                        }
                    }
                    if before.contains(x) {
                        let p = choose|p: int| 0 <= p < before.len() && before[p] == x;
                        if p < j {
                            assert(after[p] == x);
                        } else {
                            assert(after[p + 1] == x);
                        }
                    }
                    if x == node@ {
                        assert(after[j as int] == x);
                    }
                }
            }
        }
        let mut nodes: Vec<NodeId> = Vec::new();
        core::mem::swap(&mut self.nodes, &mut nodes);
        nodes.insert(j, node);
        self.nodes = nodes;
        true
    }

    /// Takes `node` out of the set. Returns whether it was a member.
    pub fn remove(&mut self, node: &NodeId) -> (r: bool)
        ensures
            final(self)@ == old(self)@.remove(node@),
            r == old(self)@.contains(node@),
            strictly_ordered(final(self).ids()),
    {
        proof {
            use_type_invariant(&*self);
        }
        let mut j: usize = 0;
        while j < self.nodes.len() && !self.nodes[j].same(node)
            invariant
                j <= self.nodes.len(),
                forall|k: int| 0 <= k < j ==> self.ids()[k] != node@,
                *self == *old(self),
            decreases self.nodes.len() - j,
        {
            j += 1;
        }
        let ghost before = self.ids();
        if j == self.nodes.len() {
            proof {
                assert(self@.remove(node@) =~= self@);
            }
            return false;
        }
        proof {
            let after = before.remove(j as int);
            assert(ids_of(self.nodes@.remove(j as int)) =~= after);
            assert(before[j as int] == node@);
            lemma_strictly_ordered_distinct(before);
            assert(strictly_ordered(after)) by {
                assert forall|p: int, q: int| 0 <= p < q < after.len() implies id_before(
                    after[p],
                    after[q],
                ) by {
                    let p0 = if p < j {
                        p
                    } else {
                        p + 1
                    };
                    let q0 = if q < j {
                        q
                    } else {
                        q + 1
                    };
                    assert(id_before(before[p0], before[q0]));
                }
            }
            assert(after.to_set() =~= before.to_set().remove(node@)) by {
                assert forall|x: Seq<char>| after.contains(x) <==> (before.contains(x) && x
                    != node@) by {
                    if after.contains(x) {
                        let p = choose|p: int| 0 <= p < after.len() && after[p] == x;
                        let p0 = if p < j {
                            p
                        } else {
                            p + 1
                        };
                        assert(before[p0] == x);
                    }
                    if before.contains(x) && x != node@ {
                        let p = choose|p: int| 0 <= p < before.len() && before[p] == x;
                        if p < j {
                            assert(after[p] == x);
                        } else {
                            assert(after[p - 1] == x);
                        }
                    }
                }
            }
        }
        let mut nodes: Vec<NodeId> = Vec::new();
        core::mem::swap(&mut self.nodes, &mut nodes);
        nodes.remove(j);
        self.nodes = nodes;
        true
    }

    /// The members in ascending order of their identifiers.
    pub fn to_vec(&self) -> (r: Vec<NodeId>)
        ensures
            ids_of(r@) == self.ids(),
            strictly_ordered(self.ids()),
    {
        proof {
            use_type_invariant(self);
        }
        let mut r: Vec<NodeId> = Vec::new();
        let mut i: usize = 0;
        while i < self.nodes.len()
            invariant
                i <= self.nodes.len(),
                ids_of(r@) == self.ids().take(i as int),
            decreases self.nodes.len() - i,
        {
            let n = self.nodes[i].clone();
            proof {
                assert(n@ == self.ids()[i as int]);
                assert(ids_of(r@.push(n)) =~= ids_of(r@).push(n@));
                assert(self.ids().take(i + 1) =~= self.ids().take(i as int).push(n@));
            }
            r.push(n);
            i += 1;
        }
        proof {
            assert(self.ids().take(self.nodes.len() as int) =~= self.ids());
        }
        r
    }

    /// The members of `self` and those of `other` together.
    pub fn union(&self, other: &ClusterMembers) -> (r: ClusterMembers)
        ensures
            r@ == self@.union(other@),
            strictly_ordered(r.ids()),
    {
        let mut r = self.clone();
        let mut i: usize = 0;
        while i < other.nodes.len()
            invariant
                i <= other.nodes.len(),
                strictly_ordered(r.ids()),
                r@ == self@.union(other.ids().take(i as int).to_set()),
            decreases other.nodes.len() - i,
        {
            let n = other.nodes[i].clone();
            proof {
                let part = other.ids().take(i as int);
                let more = other.ids().take(i + 1);
                assert(more =~= part.push(n@));
                assert(more.to_set() =~= part.to_set().insert(n@)) by {
                    assert forall|x: Seq<char>| more.contains(x) <==> (part.contains(x) || x
                        == n@) by {
                        if more.contains(x) {
                            let p = choose|p: int| 0 <= p < more.len() && more[p] == x;
                            if p < part.len() {
                                assert(part[p] == x);
                            }
                        }
                        if part.contains(x) {
                            let p = choose|p: int| 0 <= p < part.len() && part[p] == x;
                            assert(more[p] == x);
                        }
                        if x == n@ {
                            assert(more[i as int] == x);
                        }
                    }
                }
                assert(r@.insert(n@) =~= self@.union(more.to_set()));
            }
            r.insert(n);
            i += 1;
        }
        proof {
            assert(other.ids().take(other.nodes.len() as int) =~= other.ids());
        }
        r
    }
}

impl Default for ClusterMembers {
    fn default() -> (r: Self)
        ensures
            r.ids() == Seq::<Seq<char>>::empty(),
            r@ == Set::<Seq<char>>::empty(),
    {
        ClusterMembers::new()
    }
}

impl Clone for ClusterMembers {
    fn clone(&self) -> (r: Self)
        ensures
            r.ids() == self.ids(),
            r@ == self@,
            strictly_ordered(r.ids()),
    {
        proof {
            use_type_invariant(self);
        }
        let mut nodes: Vec<NodeId> = Vec::new();
        let mut i: usize = 0;
        while i < self.nodes.len()
            invariant
                i <= self.nodes.len(),
                ids_of(nodes@) == self.ids().take(i as int),
            decreases self.nodes.len() - i,
        {
            let n = self.nodes[i].clone();
            proof {
                assert(n@ == self.ids()[i as int]);
                assert(ids_of(nodes@.push(n)) =~= ids_of(nodes@).push(n@));
                assert(self.ids().take(i + 1) =~= self.ids().take(i as int).push(n@));
            }
            nodes.push(n);
            i += 1;
        }
        proof {
            assert(self.ids().take(self.nodes.len() as int) =~= self.ids());
        }
        ClusterMembers { nodes }
    }
}

impl PartialEq for ClusterMembers {
    fn eq(&self, other: &Self) -> (r: bool) {
        if self.nodes.len() != other.nodes.len() {
            return false;
        }
        let mut i: usize = 0;
        while i < self.nodes.len()
            invariant
                i <= self.nodes.len(),
                self.nodes.len() == other.nodes.len(),
                self.ids().take(i as int) == other.ids().take(i as int),
            decreases self.nodes.len() - i,
        {
            if !self.nodes[i].same(&other.nodes[i]) {
                assert(self.ids()[i as int] != other.ids()[i as int]);
                return false;
            }
            proof {
                assert(self.ids().take(i + 1) =~= self.ids().take(i as int).push(
                    self.ids()[i as int],
                ));
                assert(other.ids().take(i + 1) =~= other.ids().take(i as int).push(
                    other.ids()[i as int],
                ));
            }
            i += 1;
        }
        proof {
            assert(self.ids().take(self.nodes.len() as int) =~= self.ids());
            assert(other.ids().take(self.nodes.len() as int) =~= other.ids());
        }
        true
    }
}

impl PartialEqSpecImpl for ClusterMembers {
    open spec fn obeys_eq_spec() -> bool {
        true
    }

    /// Two sets are equal where they list the same identifiers.
    open spec fn eq_spec(&self, other: &Self) -> bool {
        self.ids() == other.ids()
    }
}

impl Eq for ClusterMembers {

}

} // verus!
