use social_network::graph::SocialNetwork;
use std::collections::HashMap;

fn graph_of(edges: &[(u32, u32)]) -> SocialNetwork {
    let mut g = SocialNetwork::new();
    for &(a, b) in edges {
        g.add_edge(a, b);
    }
    g
}

fn map_of(entries: &[(u32, usize)]) -> HashMap<u32, usize> {
    entries.iter().cloned().collect()
}

#[test]
fn distance_to_self_is_zero() {
    let g = graph_of(&[(0, 1), (1, 2), (2, 0), (5, 6), (7, 7)]);
    for s in [0u32, 1, 2, 5, 6, 7, 99] {
        assert_eq!(g.bfs(s).get(&s), Some(&0));
    }
}

#[test]
fn path_graph_distances() {
    let g = graph_of(&[(0, 1), (1, 2), (2, 3)]);
    assert_eq!(g.bfs(0), map_of(&[(0, 0), (1, 1), (2, 2), (3, 3)]));
    assert_eq!(g.bfs(1), map_of(&[(0, 1), (1, 0), (2, 1), (3, 2)]));
    assert_eq!(g.bfs(3), map_of(&[(0, 3), (1, 2), (2, 1), (3, 0)]));
}

#[test]
fn bfs_takes_the_shorter_of_two_routes() {
    let g = graph_of(&[(0, 1), (1, 2), (2, 3), (3, 4), (0, 4)]);
    assert_eq!(g.bfs(0), map_of(&[(0, 0), (1, 1), (2, 2), (3, 2), (4, 1)]));
}

#[test]
fn bfs_twice_gives_the_same_map() {
    let g = graph_of(&[(0, 1), (0, 2), (1, 3), (2, 3), (3, 4), (10, 11)]);
    for s in [0u32, 3, 4, 10, 42] {
        assert_eq!(g.bfs(s), g.bfs(s));
    }
}

#[test]
fn bfs_from_absent_node_is_singleton() {
    let g = graph_of(&[(0, 1), (1, 2)]);
    assert_eq!(g.bfs(9), map_of(&[(9, 0)]));
    let empty = SocialNetwork::new();
    assert_eq!(empty.bfs(0), map_of(&[(0, 0)]));
}

#[test]
fn bfs_leaves_out_unreachable_nodes() {
    let g = graph_of(&[(0, 1), (2, 3)]);
    assert_eq!(g.bfs(0), map_of(&[(0, 0), (1, 1)]));
    assert_eq!(g.bfs(3), map_of(&[(2, 1), (3, 0)]));
}

#[test]
fn bfs_with_self_loop() {
    let g = graph_of(&[(4, 4), (4, 5)]);
    assert_eq!(g.bfs(4), map_of(&[(4, 0), (5, 1)]));
}

#[test]
fn predecessors_lie_one_hop_nearer() {
    let g = graph_of(&[(0, 1), (0, 2), (1, 3), (2, 3), (3, 4), (10, 11)]);
    let (distances, predecessors) = g.bfs_with_predecessors(0);
    assert_eq!(distances, g.bfs(0));
    assert_eq!(predecessors.len(), distances.len() - 1);
    assert!(!predecessors.contains_key(&0));
    for (node, parent) in &predecessors {
        assert!(g.has_edge(*parent, *node));
        assert_eq!(distances[node], distances[parent] + 1);
    }
    assert!(predecessors[&3] == 1 || predecessors[&3] == 2);
    assert_eq!(predecessors[&4], 3);
}

#[test]
fn distance_is_the_same_in_both_directions() {
    let g = graph_of(&[(0, 1), (0, 2), (1, 3), (2, 3), (3, 4), (10, 11), (12, 12)]);
    for s in g.nodes() {
        let from_s = g.bfs(s);
        for d in g.nodes() {
            let from_d = g.bfs(d);
            assert_eq!(from_s.get(&d), from_d.get(&s));
        }
    }
}

#[test]
fn neighbors_are_at_most_one_hop_further() {
    let g = graph_of(&[(0, 1), (0, 2), (1, 3), (2, 3), (3, 4), (4, 0), (10, 11)]);
    for s in g.nodes() {
        let distances = g.bfs(s);
        for (u, du) in &distances {
            for w in g.neighbors(*u) {
                assert!(distances[&w] <= du + 1);
            }
        }
    }
}

#[test]
fn distances_stay_below_the_number_of_nodes() {
    let g = graph_of(&[(0, 1), (1, 2), (2, 3), (3, 4)]);
    let n = g.nodes().len();
    for s in g.nodes() {
        for (_, d) in g.bfs(s) {
            assert!(d < n);
        }
    }
    assert_eq!(g.bfs(0)[&4], 4);
}
