use graph_flow::bipartite::{
    has_perfect_matching, maximum_independent_set_size, maximum_matching, minimum_vertex_cover_size,
    BipartiteGraph,
};

#[test]
fn test_perfect_matching() {
    let mut bg = BipartiteGraph::new(3, 3);
    bg.add_edge(0, 0);
    bg.add_edge(1, 1);
    bg.add_edge(2, 2);
    let result = maximum_matching(&bg);
    assert_eq!(result.matching_size, 3);
}

#[test]
fn test_no_matching() {
    let bg = BipartiteGraph::new(2, 2);
    let result = maximum_matching(&bg);
    assert_eq!(result.matching_size, 0);
}

#[test]
fn test_partial_matching() {
    let mut bg = BipartiteGraph::new(3, 3);
    bg.add_edge(0, 0);
    bg.add_edge(0, 1);
    bg.add_edge(1, 1);
    let result = maximum_matching(&bg);
    assert!(result.matching_size >= 2);
}

#[test]
fn test_unequal_sides() {
    let mut bg = BipartiteGraph::new(2, 5);
    bg.add_edge(0, 0);
    bg.add_edge(1, 1);
    let result = maximum_matching(&bg);
    assert_eq!(result.matching_size, 2);
}

#[test]
fn test_has_perfect_matching() {
    let mut bg = BipartiteGraph::new(2, 2);
    bg.add_edge(0, 0);
    bg.add_edge(1, 1);
    assert!(has_perfect_matching(&bg));
}

#[test]
fn test_no_perfect_matching() {
    let mut bg = BipartiteGraph::new(2, 3);
    bg.add_edge(0, 0);
    assert!(!has_perfect_matching(&bg));
}

#[test]
fn test_min_vertex_cover() {
    let mut bg = BipartiteGraph::new(3, 3);
    bg.add_edge(0, 0);
    bg.add_edge(1, 1);
    bg.add_edge(2, 2);
    assert_eq!(minimum_vertex_cover_size(&bg), 3);
}

#[test]
fn test_max_independent_set() {
    let mut bg = BipartiteGraph::new(2, 2);
    bg.add_edge(0, 0);
    bg.add_edge(1, 1);
    let mis = maximum_independent_set_size(&bg);
    assert_eq!(mis, 2); // 4 - 2 = 2
}

#[test]
fn matching_pairs_are_graph_edges() {
    let mut bg = BipartiteGraph::new(3, 3);
    bg.add_edge(0, 0);
    bg.add_edge(0, 1);
    bg.add_edge(1, 1);
    bg.add_edge(2, 1);
    let result = maximum_matching(&bg);
    assert_eq!(result.matching_size, result.matches.len());
    assert_eq!(result.matching_size, 2);
    for &(u, v) in &result.matches {
        assert!((u == 0 && (v == 0 || v == 1)) || (u == 1 && v == 1) || (u == 2 && v == 1));
    }
}

#[test]
fn empty_side_gives_empty_matching() {
    let bg = BipartiteGraph::new(0, 4);
    let result = maximum_matching(&bg);
    assert_eq!(result.matching_size, 0);
    assert!(result.matches.is_empty());
    assert_eq!(maximum_independent_set_size(&bg), 4);
    assert!(has_perfect_matching(&bg));
}

#[test]
fn sizes_are_kept() {
    let bg = BipartiteGraph::new(4, 7);
    assert_eq!(bg.left_size(), 4);
    assert_eq!(bg.right_size(), 7);
}

#[test]
fn maximum_matching_beats_greedy_choice() {
    // Matching left 0 to right 0 first would leave left 1 unmatched.
    let mut bg = BipartiteGraph::new(2, 2);
    bg.add_edge(0, 0);
    bg.add_edge(0, 1);
    bg.add_edge(1, 0);
    let result = maximum_matching(&bg);
    assert_eq!(result.matching_size, 2);
    let mut lefts: Vec<usize> = result.matches.iter().map(|p| p.0).collect();
    let mut rights: Vec<usize> = result.matches.iter().map(|p| p.1).collect();
    lefts.sort();
    rights.sort();
    assert_eq!(lefts, vec![0, 1]);
    assert_eq!(rights, vec![0, 1]);
    for p in &result.matches {
        assert!(*p == (0, 0) || *p == (0, 1) || *p == (1, 0));
    }
    assert!(has_perfect_matching(&bg));
    assert_eq!(minimum_vertex_cover_size(&bg), 2);
    assert_eq!(maximum_independent_set_size(&bg), 2);
}

#[test]
fn star_graph_matches_once() {
    let mut bg = BipartiteGraph::new(1, 4);
    for v in 0..4 {
        bg.add_edge(0, v);
    }
    let result = maximum_matching(&bg);
    assert_eq!(result.matching_size, 1);
    assert_eq!(result.matches[0].0, 0);
    // The smaller side is fully matched.
    assert!(has_perfect_matching(&bg));
    assert_eq!(maximum_independent_set_size(&bg), 4);
}

#[test]
fn repeated_edge_matches_once() {
    let mut bg = BipartiteGraph::new(1, 1);
    bg.add_edge(0, 0);
    bg.add_edge(0, 0);
    let result = maximum_matching(&bg);
    assert_eq!(result.matching_size, 1);
    assert_eq!(result.matches, vec![(0, 0)]);
    assert!(has_perfect_matching(&bg));
    assert_eq!(minimum_vertex_cover_size(&bg), 1);
    assert_eq!(maximum_independent_set_size(&bg), 1);
}

#[test]
fn adding_an_edge_grows_matching_by_one_at_most() {
    let mut bg = BipartiteGraph::new(2, 2);
    bg.add_edge(0, 0);
    assert_eq!(maximum_matching(&bg).matching_size, 1);
    bg.add_edge(1, 0);
    assert_eq!(maximum_matching(&bg).matching_size, 1);
    bg.add_edge(1, 1);
    assert_eq!(maximum_matching(&bg).matching_size, 2);
    let copy = bg.clone();
    assert_eq!(maximum_matching(&copy).matching_size, 2);
}

#[test]
fn perfect_matching_on_the_smaller_right_side() {
    let mut bg = BipartiteGraph::new(3, 2);
    bg.add_edge(0, 0);
    bg.add_edge(2, 1);
    assert!(has_perfect_matching(&bg));
    assert_eq!(maximum_matching(&bg).matching_size, 2);
}
