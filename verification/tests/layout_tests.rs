use dsa_sim::grid::{grid_cell, grid_columns, grid_rows};
use dsa_sim::layering::longest_path_layering;
use dsa_sim::layout::{rank_layout, LayoutGroup, LayoutNode};

fn node(name: &str, links: &[&str], group: Option<&str>, rank: Option<usize>) -> LayoutNode {
    LayoutNode {
        name: name.to_string(),
        links: links.iter().map(|s| s.to_string()).collect(),
        group: group.map(|g| g.to_string()),
        rank,
        order: None,
    }
}

#[test]
fn chain_ranks_follow_links() {
    let graph = vec![node("a", &["b"], None, None), node("b", &["c"], None, None), node("c", &[], None, None)];
    let r = rank_layout(&graph, &vec![]);
    let ids: Vec<&str> = r.elements.iter().map(|e| e.id.as_str()).collect();
    assert_eq!(ids, vec!["a", "b", "c"]);
    assert_eq!(r.ranks, vec![0, 1, 2]);
    assert_eq!(r.layers, vec![vec![0], vec![1], vec![2]]);
}

#[test]
fn explicit_rank_wins() {
    let graph = vec![node("a", &["b"], None, None), node("b", &[], None, Some(5))];
    let r = rank_layout(&graph, &vec![]);
    assert_eq!(r.ranks[1], 5);
    assert_eq!(r.layers.len(), 6);
}

#[test]
fn grouped_nodes_rank_together() {
    let graph = vec![
        node("gateway", &["worker_1", "worker_2"], None, None),
        node("worker_1", &[], Some("compute"), None),
        node("worker_2", &[], Some("compute"), None),
    ];
    let groups = vec![LayoutGroup { id: "compute".to_string(), nodes: vec!["worker_1".to_string(), "worker_2".to_string()] }];
    let r = rank_layout(&graph, &groups);
    let ids: Vec<&str> = r.elements.iter().map(|e| e.id.as_str()).collect();
    assert_eq!(ids, vec!["compute", "gateway"]);
    assert!(r.elements[0].is_group);
    assert_eq!(r.elements[0].members, vec!["worker_1".to_string(), "worker_2".to_string()]);
    assert_eq!(r.ranks, vec![1, 0]);
    assert_eq!(r.layers, vec![vec![1], vec![0]]);
}

#[test]
fn layering_is_longest_path() {
    // 0 -> 1 -> 2 and 0 -> 2: node 2 lands after node 1
    let adj = vec![vec![1, 2], vec![2], vec![]];
    assert_eq!(longest_path_layering(&adj, &vec![0, 0, 0]), vec![0, 1, 2]);
    // a seed raises its node and everything after it
    assert_eq!(longest_path_layering(&adj, &vec![0, 3, 0]), vec![0, 3, 4]);
}

#[test]
fn grid_is_square_root_wide() {
    let cols: Vec<u32> = [0u32, 1, 2, 4, 5, 9, 10, 200].iter().map(|&n| grid_columns(n)).collect();
    assert_eq!(cols, vec![1, 1, 2, 2, 3, 3, 4, 15]);
    assert_eq!(grid_rows(5, 3), 2);
    assert_eq!(grid_rows(9, 3), 3);
    assert_eq!(grid_rows(0, 1), 0);
    assert_eq!(grid_cell(4, 3), (1, 1));
    assert_eq!(grid_cell(2, 3), (2, 0));
}

#[test]
fn cyclic_links_rank_after_their_entry() {
    // client -> lb <-> srv1: the cycle is never freed, so its nodes land
    // one rank past the client
    let graph = vec![
        node("client", &["lb"], None, None),
        node("lb", &["srv1"], None, None),
        node("srv1", &["lb"], None, None),
    ];
    let r = rank_layout(&graph, &vec![]);
    assert_eq!(r.ranks, vec![0, 1, 1]);
    // a fully cyclic graph starts from its first element, which is visited
    // again once the ring comes back to it and lifts its successor once more
    let ring = vec![node("a", &["b"], None, None), node("b", &["c"], None, None), node("c", &["a"], None, None)];
    let r = rank_layout(&ring, &vec![]);
    assert_eq!(r.ranks, vec![3, 4, 2]);
}
