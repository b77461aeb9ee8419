use social_network::graph::SocialNetwork;

fn sorted(mut v: Vec<u32>) -> Vec<u32> {
    v.sort();
    v
}

#[test]
fn new_graph_has_no_nodes() {
    let g = SocialNetwork::new();
    assert!(g.nodes().is_empty());
    assert!(g.neighbors(0).is_empty());
}

#[test]
fn add_edge_is_symmetric() {
    let mut g = SocialNetwork::new();
    g.add_edge(1, 2);
    assert_eq!(g.neighbors(1), vec![2]);
    assert_eq!(g.neighbors(2), vec![1]);
    assert!(g.has_edge(1, 2));
    assert!(g.has_edge(2, 1));
    assert!(!g.has_edge(1, 1));
}

#[test]
fn every_inserted_edge_shows_on_both_sides() {
    let edges: Vec<(u32, u32)> = vec![(0, 1), (1, 2), (2, 0), (7, 3), (3, 3), (4000000000, 0)];
    let mut g = SocialNetwork::new();
    for &(a, b) in &edges {
        g.add_edge(a, b);
    }
    for &(a, b) in &edges {
        assert!(g.neighbors(a).contains(&b));
        assert!(g.neighbors(b).contains(&a));
    }
    assert_eq!(sorted(g.neighbors(0)), vec![1, 2, 4000000000]);
}

#[test]
fn add_edge_twice_changes_nothing() {
    let mut g = SocialNetwork::new();
    g.add_edge(1, 2);
    g.add_edge(1, 2);
    g.add_edge(2, 1);
    assert_eq!(g.neighbors(1), vec![2]);
    assert_eq!(g.neighbors(2), vec![1]);
    assert_eq!(sorted(g.nodes()), vec![1, 2]);
}

#[test]
fn self_loop_makes_a_node_its_own_neighbor() {
    let mut g = SocialNetwork::new();
    g.add_edge(5, 5);
    assert_eq!(g.neighbors(5), vec![5]);
    assert!(g.has_edge(5, 5));
    assert_eq!(g.nodes(), vec![5]);
}

#[test]
fn neighbors_of_absent_node_is_empty() {
    let mut g = SocialNetwork::new();
    g.add_edge(1, 2);
    assert!(g.neighbors(3).is_empty());
    assert!(!g.has_edge(3, 1));
}

#[test]
fn nodes_lists_every_mentioned_node_once() {
    let mut g = SocialNetwork::new();
    g.add_edge(0, 1);
    g.add_edge(1, 2);
    g.add_edge(9, 8);
    assert_eq!(sorted(g.nodes()), vec![0, 1, 2, 8, 9]);
}
