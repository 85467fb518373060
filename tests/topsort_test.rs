use graphx::algorithm::topsort::topsort;
use graphx::graph::{DiGraph, DiNode};

#[test]
fn test_topsort_digraph() {
    let mut g = DiGraph::new(None);
    g.add_node(DiNode::new("A", Some("A".to_string())));
    g.add_node(DiNode::new("B", Some("B".to_string())));
    g.add_node(DiNode::new("C", Some("C".to_string())));
    g.add_node(DiNode::new("D", Some("D".to_string())));
    g.add_node(DiNode::new("E", Some("E".to_string())));
    g.add_node(DiNode::new("F", Some("F".to_string())));
    g.add_node(DiNode::new("G", Some("G".to_string())));
    g.add_node(DiNode::new("H", Some("H".to_string())));
    g.add_node(DiNode::new("I", Some("I".to_string())));
    g.add_node(DiNode::new("J", Some("J".to_string())));
    g.add_edge(Some("A"), Some("B"));
    g.add_edge(Some("B"), Some("C"));
    g.add_edge(Some("C"), Some("E"));
    g.add_edge(Some("D"), Some("E"));
    g.add_edge(Some("E"), Some("F"));
    g.add_edge(Some("F"), Some("G"));
    g.add_edge(Some("G"), Some("I"));
    g.add_edge(Some("H"), Some("I"));
    g.add_edge(Some("I"), Some("J"));

    let names = topsort(&g);
    assert!(names.len() == g.node_count());

    println!("{:?}", names);

    let sorted = names.iter().map(|x| x.as_str()).collect::<Vec<&str>>();
    assert!(
        sorted == vec!["A", "H", "D", "B", "C", "E", "F", "G", "I", "J"]
            || sorted == vec!["A", "D", "H", "B", "C", "E", "F", "G", "I", "J"]
            || sorted == vec!["D", "H", "A", "B", "C", "E", "F", "G", "I", "J"]
            || sorted == vec!["D", "A", "H", "B", "C", "E", "F", "G", "I", "J"]
            || sorted == vec!["H", "A", "D", "B", "C", "E", "F", "G", "I", "J"]
            || sorted == vec!["H", "D", "A", "B", "C", "E", "F", "G", "I", "J"]
    );
}

#[test]
fn topsort_leaves_out_a_cycle() {
    let mut g = DiGraph::new(None);
    g.add_edge(Some("A"), Some("B"));
    g.add_edge(Some("B"), Some("C"));
    g.add_edge(Some("C"), Some("B"));
    let names = topsort(&g);
    assert_eq!(names, vec!["A".to_string()]);
}

#[test]
fn topsort_of_empty_graph() {
    let g = DiGraph::new(None);
    assert!(topsort(&g).is_empty());
}
