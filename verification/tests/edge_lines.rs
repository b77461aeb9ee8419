use social_network::edge_list::parse_edge;
use social_network::graph::SocialNetwork;

#[test]
fn plain_line_gives_an_edge() {
    assert_eq!(parse_edge("0 1"), Some((0, 1)));
    assert_eq!(parse_edge("3980 4038"), Some((3980, 4038)));
}

#[test]
fn whitespace_round_the_tokens_is_skipped() {
    assert_eq!(parse_edge("  12\t34  "), Some((12, 34)));
    assert_eq!(parse_edge("\t7 \t 8\r"), Some((7, 8)));
    assert_eq!(parse_edge("1\u{00A0}2"), Some((1, 2)));
    assert_eq!(parse_edge("\u{3000}5\u{2003}6"), Some((5, 6)));
}

#[test]
fn lines_with_more_than_two_tokens_give_nothing() {
    assert_eq!(parse_edge("1 2 3"), None);
    assert_eq!(parse_edge("1 2 x"), None);
    assert_eq!(parse_edge(" 1\t2 \u{00A0}3 "), None);
    assert_eq!(parse_edge("1 2 3 4"), None);
}

#[test]
fn whitespace_after_the_second_token_is_allowed() {
    assert_eq!(parse_edge("1 2 "), Some((1, 2)));
    assert_eq!(parse_edge("1 2\t \r\n"), Some((1, 2)));
    assert_eq!(parse_edge("1 2\u{2028}"), Some((1, 2)));
}

#[test]
fn too_few_tokens_give_nothing() {
    assert_eq!(parse_edge(""), None);
    assert_eq!(parse_edge("   "), None);
    assert_eq!(parse_edge("1"), None);
    assert_eq!(parse_edge(" 42 "), None);
}

#[test]
fn tokens_that_are_no_numbers_give_nothing() {
    assert_eq!(parse_edge("a b"), None);
    assert_eq!(parse_edge("1 b"), None);
    assert_eq!(parse_edge("a 2"), None);
    assert_eq!(parse_edge("1,2"), None);
    assert_eq!(parse_edge("-1 2"), None);
    assert_eq!(parse_edge("1 2.5"), None);
    assert_eq!(parse_edge("+ 1"), None);
    assert_eq!(parse_edge("1 +"), None);
    assert_eq!(parse_edge("1 2x"), None);
    assert_eq!(parse_edge("\u{0661} 2"), None);
}

#[test]
fn plus_sign_and_leading_zeros_are_accepted() {
    assert_eq!(parse_edge("+5 6"), Some((5, 6)));
    assert_eq!(parse_edge("007 +08"), Some((7, 8)));
    assert_eq!(parse_edge("++5 6"), None);
}

#[test]
fn identifiers_are_bounded() {
    assert_eq!(parse_edge("4294967295 0"), Some((4294967295, 0)));
    assert_eq!(parse_edge("4294967296 0"), None);
    assert_eq!(parse_edge("0 4294967296"), None);
    assert_eq!(parse_edge("99999999999999999999999999 1"), None);
    assert_eq!(parse_edge("0000000000000000000000000001 1"), Some((1, 1)));
}

#[test]
fn parse_agrees_with_std_on_two_tokens() {
    let lines = [
        "0 1", " 5  9 ", "x 1", "1", "+3 4", "-3 4", "4294967296 1", "1 2 3", "1\u{0085}2", "",
        "7 8\t", "7 8 9 10",
    ];
    for line in lines {
        let tokens: Vec<&str> = line.split_whitespace().collect();
        let expected = if tokens.len() == 2 {
            match (tokens[0].parse::<u32>(), tokens[1].parse::<u32>()) {
                (Ok(a), Ok(b)) => Some((a, b)),
                _ => None,
            }
        } else {
            None
        };
        assert_eq!(parse_edge(line), expected);
    }
}

#[test]
fn add_line_inserts_well_formed_lines_only() {
    let mut g = SocialNetwork::new();
    assert!(g.add_line("0 1"));
    assert!(!g.add_line("1 two"));
    assert!(!g.add_line(""));
    assert!(!g.add_line("1 2 trailing"));
    assert!(!g.add_line("3"));
    assert!(g.has_edge(0, 1));
    assert!(g.has_edge(1, 0));
    assert!(!g.has_edge(1, 2));
    let mut nodes = g.nodes();
    nodes.sort();
    assert_eq!(nodes, vec![0, 1]);
}

#[test]
fn line_of_three_tokens_leaves_the_graph_empty() {
    let mut g = SocialNetwork::new();
    assert!(!g.add_line("1 2 3"));
    assert!(g.nodes().is_empty());
    assert!(!g.has_edge(1, 2));
    assert!(g.neighbors(1).is_empty());
}

#[test]
fn add_line_twice_changes_nothing() {
    let mut g = SocialNetwork::new();
    assert!(g.add_line("4 5"));
    assert!(g.add_line("4 5"));
    assert!(g.add_line(" 5 4 "));
    assert_eq!(g.neighbors(4), vec![5]);
    assert_eq!(g.neighbors(5), vec![4]);
    let mut nodes = g.nodes();
    nodes.sort();
    assert_eq!(nodes, vec![4, 5]);
}

#[test]
fn line_order_and_token_order_do_not_matter() {
    let mut g = SocialNetwork::new();
    g.add_line("0 1");
    g.add_line("1 2");
    let mut h = SocialNetwork::new();
    h.add_line("2 1");
    h.add_line("1 0");
    for a in 0u32..4 {
        for b in 0u32..4 {
            assert_eq!(g.has_edge(a, b), h.has_edge(a, b));
        }
    }
    assert_eq!(g.bfs(0), h.bfs(0));
}
