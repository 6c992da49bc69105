use kcore::activation::Intersection;
use kcore::dynamic_montresor::AliveGraph;
use kcore::edge_list::parse_edge_line;
use kcore::similarity::edge_overlap;

#[test]
fn parses_a_plain_line() {
    assert_eq!(parse_edge_line("1 2 3"), Some((1, 2, 3)));
    assert_eq!(parse_edge_line("10\t20   30"), Some((10, 20, 30)));
    assert_eq!(parse_edge_line("  7 8 9  "), Some((7, 8, 9)));
}

#[test]
fn parses_like_usize_from_str() {
    assert_eq!(parse_edge_line("+5 0 007"), Some((5, 0, 7)));
    assert_eq!(parse_edge_line("-1 2 3"), None);
    assert_eq!(parse_edge_line("1 + 3"), None);
    assert_eq!(parse_edge_line("1 2 3x"), None);
    assert_eq!(parse_edge_line("1 2 ++3"), None);
}

#[test]
fn extra_words_are_ignored_and_missing_ones_refused() {
    assert_eq!(parse_edge_line("4 5 6 whatever 8"), Some((4, 5, 6)));
    assert_eq!(parse_edge_line("4 5"), None);
    assert_eq!(parse_edge_line(""), None);
    assert_eq!(parse_edge_line("   "), None);
}

#[test]
fn unicode_white_space_separates_words() {
    assert_eq!(parse_edge_line("1\u{00a0}2\u{3000}3"), Some((1, 2, 3)));
    assert_eq!(parse_edge_line("1\u{2003}2\n3\r"), Some((1, 2, 3)));
}

#[test]
fn numbers_too_large_are_refused() {
    let max = usize::MAX.to_string();
    assert_eq!(parse_edge_line(&format!("{} 1 2", max)), Some((usize::MAX, 1, 2)));
    let over = format!("{}0 1 2", max);
    assert_eq!(parse_edge_line(&over), None);
    assert_eq!(parse_edge_line("1 2 99999999999999999999999999"), None);
}

#[test]
fn parser_agrees_with_split_whitespace() {
    let lines = ["3 4 5", " 12\t13 14 extra", "1 2", "a b c", "+1 +2 +3", "0 0 0"];
    for line in lines.iter() {
        let parts: Vec<&str> = line.split_whitespace().collect();
        let expected = if parts.len() >= 3 {
            match (parts[0].parse::<usize>(), parts[1].parse::<usize>(), parts[2].parse::<usize>()) {
                (Ok(u), Ok(v), Ok(t)) => Some((u, v, t)),
                _ => None,
            }
        } else {
            None
        };
        assert_eq!(parse_edge_line(line), expected);
    }
}

#[test]
fn overlap_counts_distinct_edges() {
    let a = vec![(1, 2), (2, 3), (1, 2)];
    let b = vec![(2, 3), (3, 4)];
    assert_eq!(edge_overlap(&a, &b), (1, 3));
    assert_eq!(edge_overlap(&b, &a), (1, 3));
}

#[test]
fn overlap_treats_directions_as_different_edges() {
    let a = vec![(1, 2)];
    let b = vec![(2, 1)];
    assert_eq!(edge_overlap(&a, &b), (0, 2));
}

#[test]
fn overlap_of_empty_and_identical_snapshots() {
    let empty: Vec<(usize, usize)> = vec![];
    assert_eq!(edge_overlap(&empty, &empty), (0, 0));
    let a = vec![(5, 6), (7, 8), (5, 6)];
    assert_eq!(edge_overlap(&a, &a), (2, 2));
    assert_eq!(edge_overlap(&a, &empty), (0, 2));
    let big = vec![(usize::MAX, 0), (0, usize::MAX)];
    assert_eq!(edge_overlap(&big, &big), (2, 2));
}

#[test]
fn corenesses_stay_below_the_number_of_identified_nodes() {
    let mut g = AliveGraph::from_n_and_mem_size(8, 2, Intersection);
    let snapshots = vec![
        vec![(0, 1), (1, 2), (0, 2), (2, 3)],
        vec![(0, 1), (1, 2), (0, 2), (4, 5)],
        vec![(4, 5), (5, 6), (4, 6)],
        vec![],
    ];
    for s in snapshots.iter() {
        g.new_snapshot(s);
        g.montresor_step();
        let n = g.get_n();
        for v in 0..8 {
            let c = g.get_node(v).get_coreness();
            assert!(c == usize::MAX || c < n);
            if g.get_node(v).get_id().is_none() {
                assert_eq!(c, usize::MAX);
            }
        }
        let cores = g.k_core_from_coreness();
        assert!(cores.len() <= n);
    }
}

#[test]
fn cores_after_two_snapshots() {
    let mut g = AliveGraph::from_n_and_mem_size(6, 2, Intersection);
    g.new_snapshot(&vec![(0, 1), (1, 2), (0, 2), (2, 3)]);
    g.montresor_step();
    g.new_snapshot(&vec![(0, 1), (1, 2), (0, 2), (2, 3)]);
    g.montresor_step();
    let cores = g.k_core_from_coreness();
    assert_eq!(cores, vec![vec![], vec![3], vec![0, 1, 2]]);
}
