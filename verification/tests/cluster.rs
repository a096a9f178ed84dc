use itertools::Itertools;
use raftlog::cluster::{majority, max_of_agreed_value, median, ClusterConfig, ClusterState};
use raftlog::members::ClusterMembers;
use raftlog::node::NodeId;
use std::collections::HashMap;

fn members(names: &[&str]) -> ClusterMembers {
    let mut set = ClusterMembers::new();
    for name in names {
        set.insert(NodeId::new(name));
    }
    set
}

fn names(nodes: &[NodeId]) -> Vec<String> {
    nodes.iter().map(|n| n.as_str().to_owned()).collect()
}

/// The median as it was computed before: sort, reverse, take the middle.
fn orig_median(mut values: Vec<u64>) -> u64 {
    values.sort();
    values.reverse();
    if values.is_empty() {
        unreachable!("no value");
    } else {
        values[values.len() / 2]
    }
}

fn naively_compute_agreed_values(v: Vec<u64>) -> u64 {
    let mut map: HashMap<u64, usize> = HashMap::new();

    for e in &v {
        let c = v.iter().filter(|&x| *e <= *x).count();
        map.insert(*e, c);
    }

    let majority = majority(v.len());
    let filt: Vec<u64> = v.iter().filter(|e| map[e] >= majority).cloned().collect();
    *filt.iter().max().unwrap()
}

#[test]
fn majority_works() {
    assert_eq!(majority(1), 1);
    assert_eq!(majority(2), 2);
    assert_eq!(majority(3), 2);
    assert_eq!(majority(4), 3);
    assert_eq!(majority(5), 3);
    assert_eq!(majority(6), 4);
    assert_eq!(majority(7), 4);
    assert_eq!(majority(8), 5);
    assert_eq!(majority(9), 5);
}

#[test]
fn max_of_agreed_value_works() {
    for i in 1..=10 {
        for v in (0..i).combinations_with_replacement(i) {
            let v: Vec<u64> = v.into_iter().map(|x: usize| x as u64).collect();
            let x1 = max_of_agreed_value(v.clone());
            let x2 = naively_compute_agreed_values(v.clone());
            let x3 = orig_median(v.clone());

            assert_eq!(x1, x2);
            assert_eq!(x2, x3);
        }
    }
}

#[test]
fn majority_is_one_more_than_half() {
    for n in 1..1000usize {
        assert_eq!(majority(n), 1 + n / 2);
    }
    assert_eq!(majority(usize::MAX), 1 + usize::MAX / 2);
}

#[test]
fn max_of_agreed_value_on_unsorted_input() {
    assert_eq!(max_of_agreed_value(vec![7]), 7);
    assert_eq!(max_of_agreed_value(vec![9, 1]), 1);
    assert_eq!(max_of_agreed_value(vec![5, 0, 5]), 5);
    assert_eq!(max_of_agreed_value(vec![0, 5, 0]), 0);
    assert_eq!(max_of_agreed_value(vec![4, 1, 3, 2]), 2);
    assert_eq!(max_of_agreed_value(vec![10, 30, 20, 50, 40]), 30);
    assert_eq!(max_of_agreed_value(vec![u64::MAX, u64::MAX, 0]), u64::MAX);
}

#[test]
fn median_asks_every_member() {
    let set = members(&["b", "a", "c"]);
    let r = median(&set, &|n: &NodeId| match n.as_str() {
        "a" => 3,
        "b" => 9,
        _ => 6,
    });
    assert_eq!(r, 6);
}

#[test]
fn consensus_of_three_members() {
    let config = ClusterConfig::new(members(&["A", "B", "C"]));
    assert_eq!(config.consensus_value(|_| 5), 5);
    assert_eq!(config.consensus_value(|n| if n.as_str() == "C" { 0 } else { 5 }), 5);
    assert_eq!(config.consensus_value(|n| if n.as_str() == "A" { 5 } else { 0 }), 0);
    assert_eq!(config.full_consensus_value(|_| 5), 5);
    assert_eq!(config.full_consensus_value(|n| if n.as_str() == "A" { 5 } else { 0 }), 0);
}

#[test]
fn joint_consensus_needs_both_majorities() {
    let config = ClusterConfig::with_state(
        members(&["A", "B", "C"]),
        members(&["A", "D", "E"]),
        ClusterState::Joint,
    );
    let tails = |n: &NodeId| match n.as_str() {
        "A" | "B" | "C" => 10,
        _ => 5,
    };
    assert_eq!(config.consensus_value(tails), 5);
    assert_eq!(config.full_consensus_value(tails), 5);
    let tails = |n: &NodeId| match n.as_str() {
        "A" | "B" | "C" | "D" => 10,
        _ => 5,
    };
    assert_eq!(config.consensus_value(tails), 10);
    assert_eq!(config.full_consensus_value(tails), 10);
}

#[test]
fn catch_up_counts_only_the_old_members() {
    let config = ClusterConfig::with_state(
        members(&["A", "B", "C"]),
        members(&["D", "E"]),
        ClusterState::CatchUp,
    );
    let tails = |n: &NodeId| match n.as_str() {
        "D" | "E" => 8,
        _ => 2,
    };
    assert_eq!(config.consensus_value(tails), 8);
    assert_eq!(config.full_consensus_value(tails), 2);
}

#[test]
fn config_change_goes_through_its_stages() {
    let stable = ClusterConfig::new(members(&["A", "B"]));
    assert_eq!(stable.state(), ClusterState::Stable);
    assert!(stable.state().is_stable());
    assert!(!stable.state().is_joint());
    assert!(stable.old_members().is_empty());
    assert_eq!(names(&stable.primary_members().to_vec()), ["A", "B"]);

    let catch_up = stable.start_config_change(members(&["B", "C"]));
    assert_eq!(catch_up.state(), ClusterState::CatchUp);
    assert_eq!(names(&catch_up.new_members().to_vec()), ["B", "C"]);
    assert_eq!(names(&catch_up.old_members().to_vec()), ["A", "B"]);
    assert_eq!(names(&catch_up.primary_members().to_vec()), ["A", "B"]);
    assert_eq!(names(&catch_up.members()), ["A", "B", "C"]);
    assert!(catch_up.is_known_node(&NodeId::new("A")));
    assert!(catch_up.is_known_node(&NodeId::new("C")));
    assert!(!catch_up.is_known_node(&NodeId::new("D")));

    let joint = catch_up.to_next_state();
    assert_eq!(joint.state(), ClusterState::Joint);
    assert!(joint.state().is_joint());
    assert_eq!(names(&joint.new_members().to_vec()), ["B", "C"]);
    assert_eq!(names(&joint.old_members().to_vec()), ["A", "B"]);
    assert_eq!(names(&joint.primary_members().to_vec()), ["A", "B"]);

    let done = joint.to_next_state();
    assert_eq!(done.state(), ClusterState::Stable);
    assert_eq!(names(&done.new_members().to_vec()), ["B", "C"]);
    assert!(done.old_members().is_empty());
    assert!(done == ClusterConfig::new(members(&["C", "B"])));
    assert!(done.to_next_state() == done);
    assert!(done != joint);

    let again = joint.start_config_change(members(&["Z"]));
    assert_eq!(names(&again.old_members().to_vec()), ["A", "B"]);
    assert_eq!(names(&again.new_members().to_vec()), ["Z"]);
}

#[test]
fn members_are_a_set_in_ascending_order() {
    assert!(ClusterMembers::default().is_empty());
    let mut set = ClusterMembers::new();
    assert!(set.is_empty());
    assert!(set.insert(NodeId::new("node10")));
    assert!(set.insert(NodeId::new("node2")));
    assert!(set.insert(NodeId::new("node")));
    assert!(set.insert(NodeId::new("Node")));
    assert!(set.insert(NodeId::new("é")));
    assert!(!set.insert(NodeId::new("node2")));
    assert_eq!(set.len(), 5);
    assert_eq!(names(&set.to_vec()), ["Node", "node", "node10", "node2", "é"]);
    assert_eq!(set.get(0).as_str(), "Node");
    assert!(set.contains(&NodeId::new("node")));
    assert!(!set.contains(&NodeId::new("nod")));

    assert!(set.remove(&NodeId::new("node")));
    assert!(!set.remove(&NodeId::new("node")));
    assert_eq!(names(&set.to_vec()), ["Node", "node10", "node2", "é"]);

    let other = members(&["a", "node2"]);
    assert_eq!(names(&set.union(&other).to_vec()), ["Node", "a", "node10", "node2", "é"]);
    assert!(set.clone() == set);
    assert!(set != other);
}

#[test]
fn node_ids_are_ordered_as_their_bytes() {
    let a = NodeId::new("abc");
    let b = NodeId::new("abd");
    let c = NodeId::new("ab");
    assert!(a.before(&b));
    assert!(!b.before(&a));
    assert!(c.before(&a));
    assert!(!a.before(&c));
    assert!(!a.before(&a));
    assert!(a.same(&NodeId::new("abc")));
    assert!(!a.same(&c));
    assert_eq!(a.clone().into_string(), "abc");
    let mut pairs = vec!["", "a", "B", "é", "zz", "z", "日本"];
    pairs.sort();
    for (i, x) in pairs.iter().enumerate() {
        for (j, y) in pairs.iter().enumerate() {
            assert_eq!(NodeId::new(x).before(&NodeId::new(y)), i < j);
        }
    }
}
