use raftlog::election::{decimal_string, Ballot, Role, Term};
use raftlog::node::NodeId;

fn ballot(term: u64, voted_for: &str) -> Ballot {
    Ballot { term: Term::new(term), voted_for: NodeId::new(voted_for) }
}

#[test]
fn ballot_in_words() {
    assert_eq!(ballot(0, "nodeA").to_str(), "ballot(term: 0, for: nodeA)");
    assert_eq!(ballot(7, "b").to_str(), "ballot(term: 7, for: b)");
    assert_eq!(ballot(10, "").to_str(), "ballot(term: 10, for: )");
    assert_eq!(ballot(1234567890, "日本").to_str(), "ballot(term: 1234567890, for: 日本)");
    assert_eq!(
        ballot(u64::MAX, "n").to_str(),
        format!("ballot(term: {}, for: {})", u64::MAX, "n")
    );
}

#[test]
fn numbers_in_decimal() {
    for n in [0u64, 1, 9, 10, 11, 99, 100, 101, 909, 1000, 65535, 4294967296, u64::MAX - 1, u64::MAX] {
        assert_eq!(decimal_string(n), n.to_string());
    }
    for n in 0u64..2000 {
        assert_eq!(decimal_string(n), n.to_string());
    }
}

#[test]
fn ballot_clone_keeps_term_and_vote() {
    let a = ballot(3, "nodeB");
    let b = a.clone();
    assert_eq!(b.term, Term::new(3));
    assert_eq!(b.voted_for.as_str(), "nodeB");
    assert!(a == b);
    assert!(a != ballot(4, "nodeB"));
    assert!(a != ballot(3, "nodeC"));
}

#[test]
fn terms_and_roles() {
    assert_eq!(Term::new(5).as_u64(), 5);
    assert_eq!(Term::from(5), Term::new(5));
    assert_eq!(Term::default().as_u64(), 0);
    assert!(Term::new(4) < Term::new(5));
    assert_ne!(Role::Follower, Role::Candidate);
    assert_ne!(Role::Candidate, Role::Leader);
}
