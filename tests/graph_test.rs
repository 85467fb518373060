use graphx::graph::{DiGraph, DiNode, GraphError};

#[test]
fn node_neighbours_are_kept_once() {
    let mut n = DiNode::new("A", Some("w".to_string()));
    n.add_predecessor("B");
    n.add_predecessor("B");
    n.add_successor("C");
    n.add_successor("D");
    assert_eq!(n.get_name(), "A");
    assert_eq!(n.get_predecessors(), vec!["B".to_string()]);
    assert_eq!(n.get_successors(), vec!["C".to_string(), "D".to_string()]);
    assert_eq!(n.in_degree(), 1);
    assert_eq!(n.out_degree(), 2);
    n.remove_successor("C");
    n.remove_predecessor("Z");
    assert_eq!(n.get_successors(), vec!["D".to_string()]);
    assert_eq!(n.get_predecessors(), vec!["B".to_string()]);
    assert_eq!(n.get_weight(), Some("w".to_string()));
    n.set_name("Q");
    assert_eq!(n.get_name(), "Q");
}

#[test]
fn add_edge_creates_nodes_and_links_both_ways() {
    let mut g = DiGraph::new(Some("g".to_string()));
    g.add_edge(Some("A"), Some("B"));
    g.add_edge(Some("A"), Some("B"));
    g.add_edge(Some("C"), None);
    assert_eq!(g.get_nodes(), vec!["A".to_string(), "B".to_string(), "C".to_string()]);
    assert_eq!(g.node_count(), 3);
    assert_eq!(g.edge_count("A", "B"), 1);
    assert_eq!(g.edge_count("B", "A"), 0);
    assert_eq!(g.edge_count("Z", "A"), 0);
    assert_eq!(g.get_node("B").unwrap().get_predecessors(), vec!["A".to_string()]);
    assert!(g.contains_node("C"));
    assert!(!g.contains_node("D"));
    assert_eq!(g.in_degree("B").unwrap(), 1);
    assert_eq!(g.out_degree("A").unwrap(), 1);
    let succ = g.successors("A").unwrap();
    assert_eq!(succ.len(), 1);
    assert_eq!(succ[0].get_name(), "B");
    let pred = g.predecessors("B").unwrap();
    assert_eq!(pred[0].get_name(), "A");
    assert!(g.predecessors("A").unwrap().is_empty());
}

#[test]
fn unknown_names_are_errors() {
    let mut g = DiGraph::new(None);
    g.add_edge(Some("A"), Some("B"));
    assert!(matches!(g.successors("X"), Err(GraphError::UnknownNode(ref k)) if k == "X"));
    assert!(matches!(g.in_degree("X"), Err(GraphError::UnknownNode(ref k)) if k == "X"));
    assert!(matches!(g.out_degree("X"), Err(GraphError::UnknownNode(_))));
    let mut n = DiNode::new("C", None);
    n.add_predecessor("Q");
    g.add_node(n);
    assert!(matches!(g.predecessors("C"), Err(GraphError::UnknownNode(ref k)) if k == "Q"));
}

#[test]
fn add_node_replaces_a_node_of_the_same_name() {
    let mut g = DiGraph::new(None);
    g.add_node(DiNode::new("A", None));
    g.add_node(DiNode::new("B", None));
    g.add_node(DiNode::new("A", Some("x".to_string())));
    assert_eq!(g.node_count(), 2);
    assert_eq!(g.get_nodes(), vec!["A".to_string(), "B".to_string()]);
    assert_eq!(g.get_node("A").unwrap().get_weight(), Some("x".to_string()));
    assert!(g.get_node("Z").is_none());
}

#[test]
fn graph_name_can_be_set_and_cleared() {
    let mut g = DiGraph::new(None);
    assert_eq!(g.get_name(), None);
    g.set_name(Some("net"));
    assert_eq!(g.get_name(), Some("net".to_string()));
    g.set_name(None);
    assert_eq!(g.get_name(), None);
}

#[test]
fn self_loop_counts_once() {
    let mut g = DiGraph::new(None);
    g.add_edge(Some("A"), Some("A"));
    assert_eq!(g.node_count(), 1);
    assert_eq!(g.edge_count("A", "A"), 1);
    assert_eq!(g.in_degree("A").unwrap(), 1);
}
