use graphx::algorithm::isomorphism::{DiGMState, DiGraphMatcher};
use graphx::algorithm::state::MatchMode;
use graphx::graph::{DiGraph, DiNode, GraphError};

fn chain(names: &[&str]) -> DiGraph {
    let mut g = DiGraph::new(None);
    for w in names.windows(2) {
        g.add_edge(Some(w[0]), Some(w[1]));
    }
    g
}

fn run(g1: &DiGraph, g2: &DiGraph, mode: MatchMode) -> Vec<Vec<(String, String)>> {
    let mut matcher = DiGraphMatcher::new(g1, g2);
    matcher.set_mode(mode);
    let mut mapping = Vec::new();
    matcher.enumerate(&mut mapping).unwrap();
    mapping
}

fn pairs(m: &[(String, String)]) -> Vec<(&str, &str)> {
    let mut v: Vec<(&str, &str)> = m.iter().map(|(a, b)| (a.as_str(), b.as_str())).collect();
    v.sort();
    v
}

#[test]
fn single_edge_is_isomorphic_to_itself_once() {
    let g = chain(&["Y", "Z"]);
    let mapping = run(&g, &g, MatchMode::Graph);
    assert_eq!(mapping.len(), 1);
    assert_eq!(pairs(&mapping[0]), vec![("Y", "Y"), ("Z", "Z")]);
}

#[test]
fn edge_has_no_match_in_two_isolated_nodes() {
    let mut host = DiGraph::new(None);
    host.add_node(DiNode::new("X", None));
    host.add_node(DiNode::new("W", None));
    let pattern = chain(&["A", "B"]);
    assert!(run(&host, &pattern, MatchMode::Subgraph).is_empty());
    assert!(run(&host, &pattern, MatchMode::Graph).is_empty());
}

#[test]
fn self_loop_is_not_matched_by_a_plain_node() {
    let mut looped = DiGraph::new(None);
    looped.add_edge(Some("A"), Some("A"));
    let mut plain = DiGraph::new(None);
    plain.add_node(DiNode::new("X", None));
    assert!(run(&plain, &looped, MatchMode::Subgraph).is_empty());
    assert!(run(&looped, &plain, MatchMode::Subgraph).is_empty());
}

#[test]
fn self_loop_matches_self_loop() {
    let mut a = DiGraph::new(None);
    a.add_edge(Some("A"), Some("A"));
    let mut x = DiGraph::new(None);
    x.add_edge(Some("X"), Some("X"));
    let mapping = run(&a, &x, MatchMode::Graph);
    assert_eq!(mapping.len(), 1);
    assert_eq!(pairs(&mapping[0]), vec![("A", "X")]);
}

#[test]
fn empty_pattern_gives_one_empty_mapping() {
    let host = chain(&["A", "B", "C"]);
    let pattern = DiGraph::new(None);
    let mapping = run(&host, &pattern, MatchMode::Subgraph);
    assert_eq!(mapping.len(), 1);
    assert!(mapping[0].is_empty());
}

#[test]
fn empty_host_gives_nothing() {
    let host = DiGraph::new(None);
    let pattern = chain(&["A", "B"]);
    assert!(run(&host, &pattern, MatchMode::Subgraph).is_empty());
}

#[test]
fn larger_pattern_gives_nothing() {
    let host = chain(&["A", "B"]);
    let pattern = chain(&["1", "2", "3"]);
    assert!(run(&host, &pattern, MatchMode::Subgraph).is_empty());
    assert!(run(&host, &pattern, MatchMode::Mono).is_empty());
}

#[test]
fn cycle_matches_itself_three_ways_including_identity() {
    let g = chain(&["A", "B", "C", "A"]);
    let mapping = run(&g, &g, MatchMode::Graph);
    assert_eq!(mapping.len(), 3);
    assert!(mapping
        .iter()
        .any(|m| pairs(m) == vec![("A", "A"), ("B", "B"), ("C", "C")]));
}

#[test]
fn emitted_mappings_are_injective_and_complete() {
    let host = chain(&["A", "B", "C", "D", "E"]);
    let pattern = chain(&["1", "2"]);
    let mapping = run(&host, &pattern, MatchMode::Subgraph);
    assert_eq!(mapping.len(), 4);
    for m in &mapping {
        assert_eq!(m.len(), 2);
        assert_ne!(m[0].0, m[1].0);
        assert_ne!(m[0].1, m[1].1);
        let by_pattern = |p: &str| m.iter().find(|(_, b)| b == p).unwrap().0.clone();
        let u = by_pattern("1");
        let v = by_pattern("2");
        assert_eq!(host.edge_count(&u, &v), 1);
    }
}

#[test]
fn graph_mode_rejects_what_subgraph_mode_accepts() {
    let host = chain(&["A", "B", "C"]);
    let pattern = chain(&["1", "2"]);
    assert_eq!(run(&host, &pattern, MatchMode::Subgraph).len(), 2);
    assert!(run(&host, &pattern, MatchMode::Graph).is_empty());
}

#[test]
fn enumerating_twice_gives_the_same_mappings() {
    let host = chain(&["A", "B", "C", "D"]);
    let pattern = chain(&["1", "2"]);
    let mut matcher = DiGraphMatcher::new(&host, &pattern);
    let mut first = Vec::new();
    matcher.subgraph_isomorphisms_iter(&mut first).unwrap();
    let mut second = Vec::new();
    matcher.subgraph_isomorphisms_iter(&mut second).unwrap();
    assert_eq!(first, second);
    assert_eq!(first.len(), 3);
}

#[test]
fn weights_must_agree() {
    let mut host = DiGraph::new(None);
    host.add_node(DiNode::new("A", Some("red".to_string())));
    host.add_node(DiNode::new("B", None));
    let mut pattern = DiGraph::new(None);
    pattern.add_node(DiNode::new("1", Some("red".to_string())));
    let mapping = run(&host, &pattern, MatchMode::Subgraph);
    assert_eq!(mapping.len(), 1);
    assert_eq!(pairs(&mapping[0]), vec![("A", "1")]);
}

#[test]
fn unknown_neighbour_is_reported() {
    let mut host = DiGraph::new(None);
    let mut node = DiNode::new("A", None);
    node.add_successor("Q");
    host.add_node(node);
    let pattern = chain(&["1", "2"]);
    let mut matcher = DiGraphMatcher::new(&host, &pattern);
    let mut mapping = Vec::new();
    let r = matcher.subgraph_isomorphisms_iter(&mut mapping);
    assert!(matches!(r, Err(GraphError::UnknownNode(ref k)) if k == "Q"));
    assert!(mapping.is_empty());
}

#[test]
fn restore_undoes_create() {
    let host = chain(&["A", "B", "C"]);
    let pattern = chain(&["1", "2"]);
    let mut m = DiGraphMatcher::new(&host, &pattern);
    let first = DiGMState::create(&mut m, Some(0), Some(0));
    let core_1 = m.core_1.clone();
    let core_2 = m.core_2.clone();
    let in_1 = m.in_1.clone();
    let out_1 = m.out_1.clone();
    let in_2 = m.in_2.clone();
    let out_2 = m.out_2.clone();
    let second = DiGMState::create(&mut m, Some(1), Some(1));
    assert_eq!(m.depth, 2);
    assert_eq!(m.out_1[2], Some(1));
    second.restore(&mut m);
    assert_eq!(m.depth, 1);
    assert_eq!(m.core_1, core_1);
    assert_eq!(m.core_2, core_2);
    assert_eq!(m.in_1, in_1);
    assert_eq!(m.out_1, out_1);
    assert_eq!(m.in_2, in_2);
    assert_eq!(m.out_2, out_2);
    first.restore(&mut m);
    assert_eq!(m.depth, 0);
    assert!(m.core_1.iter().all(|c| c.is_none()));
    assert!(m.out_1.iter().all(|c| c.is_none()));
}

#[test]
fn state_tables_agree_after_create() {
    let host = chain(&["A", "B", "C"]);
    let pattern = chain(&["1", "2"]);
    let mut m = DiGraphMatcher::new(&host, &pattern);
    let _a = DiGMState::create(&mut m, Some(1), Some(0));
    let _b = DiGMState::create(&mut m, Some(2), Some(1));
    let mapped_1 = m.core_1.iter().filter(|c| c.is_some()).count();
    let mapped_2 = m.core_2.iter().filter(|c| c.is_some()).count();
    assert_eq!(mapped_1, 2);
    assert_eq!(mapped_2, 2);
    assert_eq!(m.core_1[1], Some(0));
    assert_eq!(m.core_2[0], Some(1));
    assert_eq!(m.core_2[1], Some(2));
    for t in [&m.in_1, &m.out_1, &m.in_2, &m.out_2] {
        assert!(t.iter().all(|d| d.map_or(true, |d| d < 2)));
    }
    assert_eq!(m.in_1[0], Some(0));
}

#[test]
fn candidate_pairs_prefer_out_terminals() {
    let host = chain(&["A", "B", "C"]);
    let pattern = chain(&["1", "2"]);
    let mut m = DiGraphMatcher::new(&host, &pattern);
    assert_eq!(m.candidate_pairs(), vec![(0, 0), (1, 0), (2, 0)]);
    let _a = DiGMState::create(&mut m, Some(0), Some(0));
    assert_eq!(m.candidate_pairs(), vec![(1, 1)]);
}

#[test]
fn feasibility_tests() {
    let mut host = DiGraph::new(None);
    host.add_node(DiNode::new("A", Some("w".to_string())));
    host.add_edge(Some("A"), Some("B"));
    let mut pattern = DiGraph::new(None);
    pattern.add_node(DiNode::new("1", Some("w".to_string())));
    pattern.add_node(DiNode::new("2", None));
    let m = DiGraphMatcher::new(&host, &pattern);
    assert!(m.semantic_feasibility(0, 0));
    assert!(!m.semantic_feasibility(0, 1));
    assert!(m.semantic_feasibility(1, 1));
    assert!(!m.semantic_feasibility(1, 0));
    assert!(!m.syntactic_feasibility(0, 0));
    let mut sub = DiGraphMatcher::new(&host, &pattern);
    sub.set_mode(MatchMode::Subgraph);
    assert!(sub.syntactic_feasibility(0, 0));
}

#[test]
fn isolated_nodes_match_every_way_once() {
    let mut host = DiGraph::new(None);
    for n in ["A", "B", "C"] {
        host.add_node(DiNode::new(n, None));
    }
    let mut pattern = DiGraph::new(None);
    for n in ["1", "2"] {
        pattern.add_node(DiNode::new(n, None));
    }
    let mapping = run(&host, &pattern, MatchMode::Subgraph);
    assert_eq!(mapping.len(), 6);
    let mut seen: Vec<Vec<(&str, &str)>> = mapping.iter().map(|m| pairs(m)).collect();
    seen.sort();
    seen.dedup();
    assert_eq!(seen.len(), 6);
}

#[test]
fn relabelled_graph_is_isomorphic() {
    let g = chain(&["A", "B", "C"]);
    let h = chain(&["x", "y", "z"]);
    let mapping = run(&g, &h, MatchMode::Graph);
    assert_eq!(mapping.len(), 1);
    assert_eq!(pairs(&mapping[0]), vec![("A", "x"), ("B", "y"), ("C", "z")]);
}

#[test]
fn induced_subgraph_excludes_extra_edges() {
    let mut host = DiGraph::new(None);
    host.add_edge(Some("A"), Some("B"));
    host.add_edge(Some("B"), Some("A"));
    let pattern = chain(&["1", "2"]);
    assert!(run(&host, &pattern, MatchMode::Subgraph).is_empty());
    assert!(run(&host, &pattern, MatchMode::Mono).is_empty());
}

#[test]
fn mono_mode_asks_equal_self_loops() {
    let mut looped = DiGraph::new(None);
    looped.add_edge(Some("A"), Some("A"));
    let mut plain = DiGraph::new(None);
    plain.add_node(DiNode::new("X", None));
    assert!(run(&looped, &plain, MatchMode::Mono).is_empty());
    assert_eq!(run(&looped, &looped, MatchMode::Mono).len(), 1);
}
