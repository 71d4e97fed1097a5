use decision_maths::algorithm::SteppedAlgorithm;
use decision_maths::graphs::algorithms::{create_empty_node_from_node, Prims};
use decision_maths::graphs::{EdgeType, Graph, Node};

fn six_node_graph() -> Graph {
    let mut graph = Graph::new();
    for i in 0..6 {
        graph.add_node(Node::empty_id(i));
    }
    let edges: [(usize, usize, u64); 10] = [
        (0, 1, 9),
        (0, 2, 12),
        (0, 3, 9),
        (0, 4, 11),
        (0, 5, 8),
        (1, 5, 15),
        (1, 2, 10),
        (2, 3, 8),
        (3, 4, 14),
        (4, 5, 12),
    ];
    for (a, b, w) in edges {
        Node::add_weighted_undirected_edge(&mut graph, a, b, w);
    }
    graph
}

fn weight_in_graph(graph: &Graph, a: usize, b: usize) -> u64 {
    graph.node(a).out_edges().iter().find(|e| e.0 == b).unwrap().1
}

#[test]
fn spanning_tree_of_the_worked_example() {
    let graph = six_node_graph();
    let tree = Prims::new(&graph, 0, 6).run();
    assert_eq!(tree.len(), 6);
    let ids: Vec<usize> = (0..6).map(|k| tree.node(k).id.unwrap()).collect();
    assert_eq!(ids, vec![0, 5, 1, 3, 2, 4]);
    let mut directed_edges = 0;
    let mut weight = 0;
    for k in 0..tree.len() {
        for &(to, w) in tree.node(k).out_edges() {
            assert_eq!(w, 0);
            assert_eq!(Node::edge_type_to(&tree, k, to), Some(EdgeType::UndirectedUnweighted));
            directed_edges += 1;
            if k < to {
                weight += weight_in_graph(&graph, ids[k], ids[to]);
            }
        }
    }
    assert_eq!(directed_edges, 10);
    assert_eq!(weight, 45);
    assert_eq!(tree.node(0).out_edges(), &vec![(1, 0), (2, 0), (3, 0), (5, 0)]);
    assert_eq!(tree.node(1).out_edges(), &vec![(0, 0)]);
    assert_eq!(tree.node(2).out_edges(), &vec![(0, 0)]);
    assert_eq!(tree.node(3).out_edges(), &vec![(0, 0), (4, 0)]);
    assert_eq!(tree.node(4).out_edges(), &vec![(3, 0)]);
    assert_eq!(tree.node(5).out_edges(), &vec![(0, 0)]);
}

#[test]
fn construction_stops_at_the_wanted_size() {
    let graph = six_node_graph();
    let tree = Prims::new(&graph, 0, 3).run();
    assert_eq!(tree.len(), 3);
    let ids: Vec<Option<usize>> = (0..3).map(|k| tree.node(k).id).collect();
    assert_eq!(ids, vec![Some(0), Some(5), Some(1)]);
    assert_eq!(tree.node(0).out_edges(), &vec![(1, 0), (2, 0)]);
}

#[test]
fn one_wanted_node_is_the_start_alone() {
    let graph = six_node_graph();
    let tree = Prims::new(&graph, 4, 1).run();
    assert_eq!(tree.len(), 1);
    assert_eq!(tree.node(0).id, Some(4));
    assert!(tree.node(0).out_edges().is_empty());
}

#[test]
fn disconnected_part_is_left_out() {
    let mut graph = six_node_graph();
    let far = graph.add_node(Node::empty_id(6));
    let farther = graph.add_node(Node::empty_id(7));
    Node::add_weighted_undirected_edge(&mut graph, far, farther, 1);
    let tree = Prims::new(&graph, 0, 8).run();
    assert_eq!(tree.len(), 6);
    let tree = Prims::new(&graph, far, 8).run();
    assert_eq!(tree.len(), 2);
    assert_eq!(tree.node(1).id, Some(7));
}

#[test]
fn wanted_size_zero_spans_what_can_be_reached() {
    let graph = six_node_graph();
    let tree = Prims::new(&graph, 2, 0).run();
    assert_eq!(tree.len(), 6);
}

#[test]
fn steps_report_completion_without_change() {
    let graph = six_node_graph();
    let mut prims = Prims::new(&graph, 0, 2);
    assert_eq!(prims.visited(), &vec![(0, 0)]);
    assert!(!prims.step());
    assert_eq!(prims.visited(), &vec![(0, 0), (5, 1)]);
    assert!(prims.step());
    assert_eq!(prims.visited(), &vec![(0, 0), (5, 1)]);
    assert_eq!(prims.tree().len(), 2);
}

#[test]
fn equal_weights_take_the_first_edge_scanned() {
    let mut graph = Graph::new();
    let a = graph.add_node(Node::empty_id(10));
    let b = graph.add_node(Node::empty_id(11));
    let c = graph.add_node(Node::empty_id(12));
    Node::add_weighted_undirected_edge(&mut graph, a, c, 3);
    Node::add_weighted_undirected_edge(&mut graph, a, b, 3);
    let mut prims = Prims::new(&graph, a, 3);
    assert!(!prims.step());
    assert_eq!(prims.visited(), &vec![(a, 0), (c, 1)]);
    assert!(!prims.step());
    assert_eq!(prims.visited(), &vec![(a, 0), (c, 1), (b, 2)]);
    assert!(prims.step());
}

#[test]
fn unweighted_edges_are_the_cheapest() {
    let mut graph = Graph::new();
    let a = graph.add_node(Node::empty());
    let b = graph.add_node(Node::empty_id(1));
    let c = graph.add_node(Node::empty_id(2));
    Node::add_weighted_directed_edge(&mut graph, a, b, 1);
    Node::add_unweighted_directed_edge(&mut graph, a, c);
    let tree = Prims::new(&graph, a, 2).run();
    assert_eq!(tree.node(0).id, None);
    assert_eq!(tree.node(1).id, Some(2));
}

#[test]
fn construction_leaves_the_graph_alone() {
    let graph = six_node_graph();
    let _ = Prims::new(&graph, 0, 6).run();
    assert_eq!(
        graph.node(0).out_edges(),
        &vec![(1, 9), (2, 12), (3, 9), (4, 11), (5, 8)]
    );
    assert_eq!(graph.node(5).out_edges(), &vec![(0, 8), (1, 15), (4, 12)]);
}

#[test]
fn mirror_has_the_label_and_no_edges() {
    let graph = six_node_graph();
    let copy = create_empty_node_from_node(graph.node(3));
    assert_eq!(copy.id, Some(3));
    assert!(copy.out_edges().is_empty());
    let nameless = create_empty_node_from_node(&Node::empty());
    assert_eq!(nameless.id, None);
}
