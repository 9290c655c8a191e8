use dsa_sim::connectors::{connector_changes, connectors_between, desired_connectors, edge_key};
use dsa_sim::topology::Instance;

fn s(x: &str) -> String {
    x.to_string()
}

#[test]
fn edge_key_is_order_free() {
    assert_eq!(edge_key(&s("b"), &s("a")), (s("a"), s("b")));
    assert_eq!(edge_key(&s("a"), &s("b")), (s("a"), s("b")));
    assert_eq!(edge_key(&s("ab"), &s("a")), (s("a"), s("ab")));
    assert_eq!(edge_key(&s("Z"), &s("a")), (s("Z"), s("a")));
    assert_eq!(edge_key(&s("é"), &s("z")), (s("z"), s("é")));
}

#[test]
fn desired_edges_one_per_pair_of_placed_nodes() {
    let inst = |n: &str, l: &[&str]| Instance { name: s(n), links: l.iter().map(|x| s(x)).collect(), payload: () };
    let nodes = vec![inst("a", &["b", "a", "c"]), inst("b", &["a", "c"]), inst("c", &["d"])];
    let placed = vec![s("a"), s("b"), s("c")];
    let edges = desired_connectors(&nodes, &placed);
    assert_eq!(edges, vec![(s("a"), s("b")), (s("a"), s("c")), (s("b"), s("c"))]);
}

#[test]
fn connector_changes_diff_by_key() {
    let existing = vec![(s("b"), s("a")), (s("x"), s("y"))];
    let desired = vec![(s("a"), s("b")), (s("a"), s("c"))];
    let (remove, add) = connector_changes(&existing, &desired);
    assert_eq!(remove, vec![1]);
    assert_eq!(add, vec![1]);
}

#[test]
fn messages_ride_connectors_either_way() {
    let conns = vec![(s("a"), s("b")), (s("b"), s("c")), (s("b"), s("a"))];
    assert_eq!(connectors_between(&conns, &s("a"), &s("b")), vec![0, 2]);
    assert_eq!(connectors_between(&conns, &s("c"), &s("b")), vec![1]);
    assert!(connectors_between(&conns, &s("a"), &s("c")).is_empty());
}
