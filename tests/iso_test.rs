use graphx::algorithm::isomorphism::DiGraphMatcher;
use graphx::graph::{DiGraph, DiNode};

#[test]
fn iso_digraph_weight_test() {
    let mut g1 = DiGraph::new(None);
    g1.add_node(DiNode::new("A", Some("A".to_string())));
    g1.add_node(DiNode::new("B", Some("B".to_string())));
    g1.add_node(DiNode::new("C", Some("C".to_string())));
    g1.add_node(DiNode::new("D", Some("D".to_string())));
    g1.add_node(DiNode::new("E", Some("E".to_string())));
    g1.add_node(DiNode::new("F", Some("F".to_string())));
    g1.add_node(DiNode::new("G", Some("G".to_string())));
    g1.add_node(DiNode::new("H", Some("H".to_string())));
    g1.add_node(DiNode::new("I", Some("I".to_string())));
    g1.add_node(DiNode::new("J", Some("J".to_string())));
    g1.add_edge(Some("A"), Some("B"));
    g1.add_edge(Some("B"), Some("C"));
    g1.add_edge(Some("C"), Some("E"));
    g1.add_edge(Some("D"), Some("E"));
    g1.add_edge(Some("E"), Some("F"));
    g1.add_edge(Some("F"), Some("G"));
    g1.add_edge(Some("G"), Some("I"));
    g1.add_edge(Some("H"), Some("I"));
    g1.add_edge(Some("I"), Some("J"));

    let mut g2 = DiGraph::new(None);
    g2.add_node(DiNode::new("1", Some("B".to_string())));
    g2.add_node(DiNode::new("2", Some("C".to_string())));
    g2.add_node(DiNode::new("3", Some("D".to_string())));
    g2.add_node(DiNode::new("4", Some("E".to_string())));
    g2.add_edge(Some("1"), Some("2"));
    g2.add_edge(Some("2"), Some("4"));
    g2.add_edge(Some("3"), Some("4"));

    let mut matcher = DiGraphMatcher::new(&g1, &g2);
    let mut mapping = Vec::new();
    matcher.subgraph_isomorphisms_iter(&mut mapping).unwrap();

    assert_eq!(mapping.len(), 1);
    assert!(mapping[0]
        .iter()
        .any(|(g1_name, g2_name)| g1_name.as_str() == "B" && g2_name.as_str() == "1"));
    assert!(mapping[0]
        .iter()
        .any(|(g1_name, g2_name)| g1_name.as_str() == "C" && g2_name.as_str() == "2"));
    assert!(mapping[0]
        .iter()
        .any(|(g1_name, g2_name)| g1_name.as_str() == "D" && g2_name.as_str() == "3"));
    assert!(mapping[0]
        .iter()
        .any(|(g1_name, g2_name)| g1_name.as_str() == "E" && g2_name.as_str() == "4"));
}

#[test]
fn iso_digraph_test() {
    let mut g1 = DiGraph::new(None);
    g1.add_edge(Some("A"), Some("B"));
    g1.add_edge(Some("B"), Some("C"));
    g1.add_edge(Some("C"), Some("E"));
    g1.add_edge(Some("D"), Some("E"));
    g1.add_edge(Some("E"), Some("F"));
    g1.add_edge(Some("F"), Some("G"));
    g1.add_edge(Some("G"), Some("I"));
    g1.add_edge(Some("H"), Some("I"));
    g1.add_edge(Some("I"), Some("J"));

    let mut g2 = DiGraph::new(None);
    g2.add_edge(Some("1"), Some("2"));
    g2.add_edge(Some("2"), Some("4"));
    g2.add_edge(Some("3"), Some("4"));

    let mut matcher = DiGraphMatcher::new(&g1, &g2);
    let mut mapping = Vec::new();
    matcher.subgraph_isomorphisms_iter(&mut mapping).unwrap();

    assert_eq!(mapping.len(), 2);
}
