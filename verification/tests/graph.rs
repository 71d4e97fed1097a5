use decision_maths::graphs::graph::position_of_target;
use decision_maths::graphs::render::decimal_string;
use decision_maths::graphs::{display_id, EdgeType, Graph, Node};

#[test]
fn display_id_of_label_and_of_none() {
    assert_eq!(display_id(Some(0)), "0");
    assert_eq!(display_id(Some(7)), "7");
    assert_eq!(display_id(Some(10)), "10");
    assert_eq!(display_id(Some(1234567890)), "1234567890");
    assert_eq!(display_id(Some(usize::MAX)), usize::MAX.to_string());
    assert_eq!(display_id(None), "?");
}

#[test]
fn empty_nodes_have_no_edges() {
    let anonymous = Node::empty();
    assert_eq!(anonymous.id, None);
    assert!(anonymous.out_edges().is_empty());
    let labelled = Node::empty_id(3);
    assert_eq!(labelled.id, Some(3));
    assert!(labelled.out_edges().is_empty());
}

#[test]
fn handles_count_up_from_zero() {
    let mut graph = Graph::new();
    assert_eq!(graph.len(), 0);
    assert_eq!(graph.add_node(Node::empty()), 0);
    assert_eq!(graph.add_node(Node::empty_id(9)), 1);
    assert_eq!(graph.len(), 2);
    assert_eq!(graph.node(1).id, Some(9));
}

#[test]
fn out_edges_are_in_insertion_order() {
    let mut graph = Graph::new();
    let a = graph.add_node(Node::empty_id(1));
    let b = graph.add_node(Node::empty_id(2));
    let c = graph.add_node(Node::empty_id(3));
    Node::add_weighted_directed_edge(&mut graph, a, c, 7);
    Node::add_unweighted_directed_edge(&mut graph, a, b);
    Node::add_weighted_undirected_edge(&mut graph, b, c, 4);
    Node::add_unweighted_undirected_edge(&mut graph, c, a);
    assert_eq!(graph.node(a).out_edges(), &vec![(c, 7), (b, 0), (c, 0)]);
    assert_eq!(graph.node(b).out_edges(), &vec![(c, 4)]);
    assert_eq!(graph.node(c).out_edges(), &vec![(b, 4), (a, 0)]);
}

#[test]
fn classification_of_the_four_kinds() {
    let mut graph = Graph::new();
    let a = graph.add_node(Node::empty_id(1));
    let b = graph.add_node(Node::empty_id(2));
    let c = graph.add_node(Node::empty_id(3));
    let d = graph.add_node(Node::empty_id(4));
    Node::add_unweighted_undirected_edge(&mut graph, a, b);
    Node::add_weighted_directed_edge(&mut graph, c, a, 5);
    Node::add_weighted_undirected_edge(&mut graph, b, c, 2);
    Node::add_unweighted_directed_edge(&mut graph, d, a);
    assert_eq!(Node::edge_type_to(&graph, a, b), Some(EdgeType::UndirectedUnweighted));
    assert_eq!(Node::edge_type_to(&graph, b, a), Some(EdgeType::UndirectedUnweighted));
    assert_eq!(Node::edge_type_to(&graph, c, a), Some(EdgeType::DirectedWeighted));
    assert_eq!(Node::edge_type_to(&graph, a, c), None);
    assert_eq!(Node::edge_type_to(&graph, b, c), Some(EdgeType::UndirectedWeighted));
    assert_eq!(Node::edge_type_to(&graph, c, b), Some(EdgeType::UndirectedWeighted));
    assert_eq!(Node::edge_type_to(&graph, d, a), Some(EdgeType::DirectedUnweighted));
    assert_eq!(Node::edge_type_to(&graph, a, d), None);
    assert_eq!(Node::edge_type_to(&graph, a, a), None);
}

#[test]
fn two_directed_edges_look_like_one_undirected() {
    let mut graph = Graph::new();
    let a = graph.add_node(Node::empty());
    let b = graph.add_node(Node::empty());
    Node::add_weighted_directed_edge(&mut graph, a, b, 3);
    assert_eq!(Node::edge_type_to(&graph, a, b), Some(EdgeType::DirectedWeighted));
    Node::add_unweighted_directed_edge(&mut graph, b, a);
    assert_eq!(Node::edge_type_to(&graph, a, b), Some(EdgeType::UndirectedWeighted));
    assert_eq!(Node::edge_type_to(&graph, b, a), Some(EdgeType::UndirectedUnweighted));
}

#[test]
fn details_of_the_small_example() {
    let mut graph = Graph::new();
    let first = graph.add_node(Node::empty_id(1));
    let second = graph.add_node(Node::empty_id(2));
    let third = graph.add_node(Node::empty_id(3));
    let nameless = graph.add_node(Node::empty());
    Node::add_unweighted_undirected_edge(&mut graph, first, second);
    Node::add_weighted_directed_edge(&mut graph, third, first, 5);
    Node::add_weighted_directed_edge(&mut graph, third, nameless, 12);
    assert_eq!(Node::details(&graph, first), "Node 1\nEdges to: [\"Node 2\"]");
    assert_eq!(Node::details(&graph, second), "Node 2\nEdges to: [\"Node 1\"]");
    assert_eq!(
        Node::details(&graph, third),
        "Node 3\nEdges to: [\"Node 1 - Weight: 5\", \"Node ? - Weight: 12\"]"
    );
    assert_eq!(Node::details(&graph, nameless), "Node ?\nEdges to: []");
}

#[test]
fn position_of_target_is_the_first_match() {
    let edges = vec![(3, 1), (5, 0), (3, 7), (2, 2)];
    assert_eq!(position_of_target(&edges, 3), Some(0));
    assert_eq!(position_of_target(&edges, 5), Some(1));
    assert_eq!(position_of_target(&edges, 2), Some(3));
    assert_eq!(position_of_target(&edges, 4), None);
    assert_eq!(position_of_target(&Vec::new(), 0), None);
}

#[test]
fn decimal_string_of_small_and_large_numbers() {
    assert_eq!(decimal_string(0), "0");
    assert_eq!(decimal_string(9), "9");
    assert_eq!(decimal_string(100), "100");
    assert_eq!(decimal_string(u64::MAX), "18446744073709551615");
}

#[test]
fn duplicate_edge_is_classified_by_the_first() {
    let mut graph = Graph::new();
    let a = graph.add_node(Node::empty());
    let b = graph.add_node(Node::empty());
    Node::add_unweighted_directed_edge(&mut graph, a, b);
    Node::add_weighted_directed_edge(&mut graph, a, b, 4);
    assert_eq!(Node::edge_type_to(&graph, a, b), Some(EdgeType::DirectedUnweighted));
}

#[test]
fn self_loop_is_its_own_way_back() {
    let mut graph = Graph::new();
    let a = graph.add_node(Node::empty());
    Node::add_weighted_directed_edge(&mut graph, a, a, 2);
    assert_eq!(Node::edge_type_to(&graph, a, a), Some(EdgeType::UndirectedWeighted));
}
