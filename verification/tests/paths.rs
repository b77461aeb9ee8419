use social_network::graph::SocialNetwork;

fn graph_of(edges: &[(u32, u32)]) -> SocialNetwork {
    let mut g = SocialNetwork::new();
    for &(a, b) in edges {
        g.add_edge(a, b);
    }
    g
}

#[test]
fn path_graph_shortest_path() {
    let g = graph_of(&[(0, 1), (1, 2), (2, 3)]);
    assert_eq!(g.shortest_path(0, 3), Some(vec![0, 1, 2, 3]));
    assert_eq!(g.shortest_path(3, 0), Some(vec![3, 2, 1, 0]));
    assert_eq!(g.shortest_path(1, 2), Some(vec![1, 2]));
}

#[test]
fn path_to_self_is_single_node() {
    let g = graph_of(&[(0, 1)]);
    assert_eq!(g.shortest_path(0, 0), Some(vec![0]));
    assert_eq!(g.shortest_path(7, 7), Some(vec![7]));
}

#[test]
fn no_path_between_components() {
    let g = graph_of(&[(0, 1), (2, 3)]);
    assert_eq!(g.shortest_path(0, 3), None);
    assert_eq!(g.shortest_path(2, 1), None);
}

#[test]
fn no_path_from_or_to_absent_node() {
    let g = graph_of(&[(0, 1), (1, 2)]);
    assert_eq!(g.bfs(9).len(), 1);
    assert_eq!(g.shortest_path(9, 0), None);
    assert_eq!(g.shortest_path(0, 9), None);
    assert_eq!(g.shortest_path(1, 10), None);
}

#[test]
fn path_length_is_distance_plus_one() {
    let g = graph_of(&[(0, 1), (0, 2), (1, 3), (2, 3), (3, 4), (4, 5), (0, 5), (8, 9)]);
    for s in g.nodes() {
        let distances = g.bfs(s);
        for (d, hops) in &distances {
            let path = g.shortest_path(s, *d).unwrap();
            assert_eq!(path.len(), hops + 1);
            assert_eq!(path[0], s);
            assert_eq!(path[path.len() - 1], *d);
            for pair in path.windows(2) {
                assert!(g.has_edge(pair[0], pair[1]));
            }
        }
    }
}

#[test]
fn distances_never_fall_along_a_path() {
    let g = graph_of(&[(0, 1), (0, 2), (1, 3), (2, 3), (3, 4), (4, 5), (0, 5)]);
    let distances = g.bfs(0);
    for d in g.nodes() {
        let path = g.shortest_path(0, d).unwrap();
        for (i, node) in path.iter().enumerate() {
            assert_eq!(distances[node], i);
        }
        for pair in path.windows(2) {
            assert!(distances[&pair[0]] <= distances[&pair[1]]);
        }
    }
}

#[test]
fn either_route_round_a_square_is_accepted() {
    let g = graph_of(&[(0, 1), (1, 2), (2, 3), (3, 0)]);
    let path = g.shortest_path(0, 2).unwrap();
    assert!(path == vec![0, 1, 2] || path == vec![0, 3, 2]);
}

#[test]
fn reconstruct_from_recorded_predecessors() {
    let g = graph_of(&[(0, 1), (1, 2), (2, 3), (5, 6)]);
    let (_, predecessors) = g.bfs_with_predecessors(0);
    assert_eq!(g.reconstruct_path(&predecessors, 0, 3), Some(vec![0, 1, 2, 3]));
    assert_eq!(g.reconstruct_path(&predecessors, 0, 0), Some(vec![0]));
    assert_eq!(g.reconstruct_path(&predecessors, 0, 5), None);
    assert_eq!(g.reconstruct_path(&predecessors, 0, 77), None);
}
