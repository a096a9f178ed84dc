//! Terms, ballots and roles of the leader election.
use vstd::prelude::*;
use vstd::std_specs::cmp::PartialEqSpecImpl;
use vstd::std_specs::convert::FromSpecImpl;
use vstd::string::StringExecFns;
use crate::node::NodeId;

verus! {

/// The number of an election period. It starts at 0 and never decreases at
/// a node.
#[derive(Debug, Clone, Copy, PartialEq, Eq, Hash, PartialOrd, Ord, Structural)]
pub struct Term(pub u64);

impl Term {
    /// The term with the given number.
    pub fn new(number: u64) -> (r: Self)
        ensures
            r == Term(number),
    {
        Term(number)
    }

    /// The number of the term.
    pub fn as_u64(self) -> (r: u64)
        ensures
            r == self.0,
    {
        self.0
    }
}

impl From<u64> for Term {
    fn from(f: u64) -> (r: Self) {
        Term::new(f)
    }
}

impl FromSpecImpl<u64> for Term {
    open spec fn obeys_from_spec() -> bool {
        true
    }

    open spec fn from_spec(f: u64) -> Self {
        Term(f)
    }
}

impl Default for Term {
    fn default() -> (r: Self)
        ensures
            r == Term(0),
    {
        Term(0)
    }
}

/// The vote of a node in one term.
#[derive(Debug)]
pub struct Ballot {
    /// The term of the election.
    pub term: Term,
    /// The node voted for.
    pub voted_for: NodeId,
}

/// The character of the decimal digit `d`.
pub open spec fn digit(d: nat) -> char {
    if d == 0 {
        '0'
    } else if d == 1 {
        '1'
    } else if d == 2 {
        '2'
    } else if d == 3 {
        '3'
    } else if d == 4 {
        '4'
    } else if d == 5 {
        '5'
    } else if d == 6 {
        '6'
    } else if d == 7 {
        '7'
    } else if d == 8 {
        '8'
    } else {
        '9'
    }
}

/// The number `n` in decimal digits, without leading zeros.
pub open spec fn decimal(n: nat) -> Seq<char>
    decreases n,
{
    if n < 10 {
        seq![digit(n)]
    } else {
        decimal(n / 10).push(digit(n % 10))
    }
}

/// The decimal digit `d` as a string.
fn digit_str(d: u64) -> (r: &'static str)
    requires
        d < 10,
    ensures
        r@ == seq![digit(d as nat)],
{
    proof {
        reveal_strlit("0");
        reveal_strlit("1");
        reveal_strlit("2");
        reveal_strlit("3");
        reveal_strlit("4");
        reveal_strlit("5");
        reveal_strlit("6");
        reveal_strlit("7");
        reveal_strlit("8");
        reveal_strlit("9");
    }
    let r = if d == 0 {
        "0"
    } else if d == 1 {
        "1"
    } else if d == 2 {
        "2"
    } else if d == 3 {
        "3"
    } else if d == 4 {
        "4"
    } else if d == 5 {
        "5"
    } else if d == 6 {
        "6"
    } else if d == 7 {
        "7"
    } else if d == 8 {
        "8"
    } else {
        "9"
    };
    assert(r@ =~= seq![digit(d as nat)]);
    r
}

/// The number `n` in decimal digits.
pub fn decimal_string(n: u64) -> (r: String)
    ensures
        r@ == decimal(n as nat),
{
    // The digits from the last to the first.
    let mut digits: Vec<u64> = Vec::new();
    let mut rest: u64 = n;
    while rest >= 10
        invariant
            forall|i: int| 0 <= i < digits@.len() ==> digits@[i] < 10,
            decimal(n as nat) == decimal(rest as nat) + Seq::new(
                digits@.len(),
                |i: int| digit(digits@[digits@.len() - 1 - i] as nat),
            ),
        decreases rest,
    {
        let ghost before = digits@;
        let d: u64 = rest % 10;
        digits.push(d);
        proof {
            let old_tail = Seq::new(before.len(), |i: int| digit(before[before.len() - 1 - i] as nat));
            let new_tail = Seq::new(
                digits@.len(),
                |i: int| digit(digits@[digits@.len() - 1 - i] as nat),
            );
            assert(new_tail =~= seq![digit(d as nat)] + old_tail);
            assert(decimal(rest as nat) == decimal((rest / 10) as nat).push(digit(d as nat)));
            assert(decimal((rest / 10) as nat).push(digit(d as nat)) + old_tail =~= decimal(
                (rest / 10) as nat,
            ) + new_tail);
        }
        rest = rest / 10;
    }
    let mut r = String::from_str(digit_str(rest));
    let ghost tail = Seq::new(digits@.len(), |i: int| digit(digits@[digits@.len() - 1 - i] as nat));
    let mut k: usize = digits.len();
    proof {
        assert(tail.take(0) =~= Seq::<char>::empty());
        assert(r@ + Seq::<char>::empty() =~= r@);
    }
    while k > 0
        invariant
            k <= digits@.len(),
            forall|i: int| 0 <= i < digits@.len() ==> digits@[i] < 10,
            tail == Seq::new(digits@.len(), |i: int| digit(digits@[digits@.len() - 1 - i] as nat)),
            r@ == decimal(rest as nat) + tail.take(digits@.len() - k),
        decreases k,
    {
        k -= 1;
        let ghost before = r@;
        r.append(digit_str(digits[k]));
        proof {
            let done = digits@.len() - k - 1;
            assert(tail.take(done + 1) =~= tail.take(done).push(tail[done]));
            assert(tail[done] == digit(digits@[k as int] as nat));
            assert(before + seq![tail[done]] =~= decimal(rest as nat) + tail.take(done + 1));
        }
    }
    proof {
        assert(tail.take(digits@.len() as int) =~= tail);
    }
    r
}

impl Ballot {
    /// The ballot in words: `ballot(term: T, for: N)` with the number of
    /// the term for `T` and the identifier of the node for `N`.
    pub fn to_str(&self) -> (r: String)
        ensures
            r@ == "ballot(term: "@ + decimal(self.term.0 as nat) + ", for: "@ + self.voted_for@
                + ")"@,
    {
        let mut r = String::from_str("ballot(term: ");
        let number = decimal_string(self.term.as_u64());
        r.append(number.as_str());
        r.append(", for: ");
        r.append(self.voted_for.as_str());
        r.append(")");
        r
    }
}

impl PartialEq for Ballot {
    fn eq(&self, other: &Self) -> (r: bool) {
        self.term == other.term && self.voted_for == other.voted_for
    }
}

impl PartialEqSpecImpl for Ballot {
    open spec fn obeys_eq_spec() -> bool {
        true
    }

    /// Two ballots are equal where they are of the same term and for the
    /// same node.
    open spec fn eq_spec(&self, other: &Self) -> bool {
        self.term == other.term && self.voted_for@ == other.voted_for@
    }
}

impl Eq for Ballot {

}

impl Clone for Ballot {
    fn clone(&self) -> (r: Self)
        ensures
            r.term == self.term,
            r.voted_for@ == self.voted_for@,
    {
        Ballot { term: self.term, voted_for: self.voted_for.clone() }
    }
}

/// The role of a node in an election.
#[derive(Debug, Clone, Copy, PartialEq, Eq, Hash, Structural)]
pub enum Role {
    /// Has voted for another node.
    Follower,
    /// Stands for election.
    Candidate,
    /// Was elected by a majority.
    Leader,
}

} // verus!
