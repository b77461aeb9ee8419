use social_network::graph::SocialNetwork;
use social_network::stats::{mean_of, median_of, Ratio};

fn graph_of(edges: &[(u32, u32)]) -> SocialNetwork {
    let mut g = SocialNetwork::new();
    for &(a, b) in edges {
        g.add_edge(a, b);
    }
    g
}

fn value(r: Ratio) -> f64 {
    r.numerator as f64 / r.denominator as f64
}

#[test]
fn median_of_odd_count() {
    let r = median_of(vec![1, 2, 3]).unwrap();
    assert_eq!(r, Ratio { numerator: 2, denominator: 1 });
    assert_eq!(value(r), 2.0);
}

#[test]
fn median_of_even_count() {
    let r = median_of(vec![1, 2, 3, 4]).unwrap();
    assert_eq!(r, Ratio { numerator: 5, denominator: 2 });
    assert_eq!(value(r), 2.5);
}

#[test]
fn median_sorts_first() {
    assert_eq!(median_of(vec![3, 1, 2]), Some(Ratio { numerator: 2, denominator: 1 }));
    assert_eq!(median_of(vec![9, 0, 4, 1]), Some(Ratio { numerator: 5, denominator: 2 }));
    assert_eq!(median_of(vec![7]), Some(Ratio { numerator: 7, denominator: 1 }));
}

#[test]
fn median_of_nothing_is_none() {
    assert_eq!(median_of(Vec::new()), None);
}

#[test]
fn median_of_largest_values_does_not_wrap() {
    let r = median_of(vec![usize::MAX, usize::MAX]).unwrap();
    assert_eq!(r.numerator, 2 * (usize::MAX as u128));
    assert_eq!(r.denominator, 2);
}

#[test]
fn mean_is_sum_over_count() {
    assert_eq!(mean_of(&vec![1, 2, 3, 4]), Ratio { numerator: 10, denominator: 4 });
    assert_eq!(mean_of(&vec![5]), Ratio { numerator: 5, denominator: 1 });
    assert_eq!(mean_of(&Vec::new()), Ratio { numerator: 0, denominator: 0 });
}

#[test]
fn path_graph_statistics() {
    let g = graph_of(&[(0, 1), (1, 2), (2, 3)]);
    let mut all = g.all_distances();
    all.sort();
    assert_eq!(all, vec![0, 0, 0, 0, 1, 1, 1, 1, 1, 1, 2, 2, 2, 2, 3, 3]);
    let mean = g.average_shortest_path_length();
    assert_eq!(mean, Ratio { numerator: 20, denominator: 16 });
    assert_eq!(value(mean), 1.25);
    let median = g.median_shortest_path_length().unwrap();
    assert_eq!(median, Ratio { numerator: 2, denominator: 2 });
    assert_eq!(value(median), 1.0);
}

#[test]
fn empty_graph_statistics() {
    let g = SocialNetwork::new();
    assert!(g.all_distances().is_empty());
    assert_eq!(g.average_shortest_path_length(), Ratio { numerator: 0, denominator: 0 });
    assert_eq!(g.median_shortest_path_length(), None);
}

#[test]
fn single_edge_statistics() {
    let g = graph_of(&[(3, 4)]);
    assert_eq!(g.average_shortest_path_length(), Ratio { numerator: 2, denominator: 4 });
    assert_eq!(g.median_shortest_path_length(), Some(Ratio { numerator: 1, denominator: 2 }));
}

#[test]
fn self_distances_are_counted() {
    let g = graph_of(&[(6, 6)]);
    assert_eq!(g.all_distances(), vec![0]);
    assert_eq!(g.average_shortest_path_length(), Ratio { numerator: 0, denominator: 1 });
    assert_eq!(g.median_shortest_path_length(), Some(Ratio { numerator: 0, denominator: 1 }));
}

#[test]
fn statistics_of_two_components() {
    let g = graph_of(&[(0, 1), (1, 2), (10, 11)]);
    let mut all = g.all_distances();
    all.sort();
    assert_eq!(all, vec![0, 0, 0, 0, 0, 1, 1, 1, 1, 1, 1, 2, 2]);
    assert_eq!(g.average_shortest_path_length(), Ratio { numerator: 10, denominator: 13 });
    assert_eq!(g.median_shortest_path_length(), Some(Ratio { numerator: 1, denominator: 1 }));
}

#[test]
fn mean_is_at_most_nodes_less_one() {
    for edges in [vec![(0u32, 1u32)], vec![(0, 1), (1, 2), (2, 3)], vec![(0, 1), (5, 6), (6, 7)]] {
        let g = graph_of(&edges);
        let mean = g.average_shortest_path_length();
        let nodes = g.nodes().len() as u128;
        assert!(mean.numerator <= mean.denominator * (nodes - 1));
    }
}

#[test]
fn mean_is_zero_only_without_proper_edges() {
    let loops = graph_of(&[(1, 1), (2, 2), (9, 9)]);
    assert_eq!(loops.average_shortest_path_length(), Ratio { numerator: 0, denominator: 3 });
    let mixed = graph_of(&[(1, 1), (2, 3)]);
    assert_eq!(mixed.average_shortest_path_length(), Ratio { numerator: 2, denominator: 5 });
}
