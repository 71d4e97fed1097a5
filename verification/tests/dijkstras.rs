use decision_maths::algorithm::SteppedAlgorithm;
use decision_maths::graphs::algorithms::dijkstras::reversed;
use decision_maths::graphs::algorithms::{Dijkstras, Distance, PathError, WorkingNode};
use decision_maths::graphs::{Graph, Node};

fn six_nodes() -> Graph {
    let mut graph = Graph::new();
    for i in 0..6 {
        let handle = graph.add_node(Node::empty_id(i));
        assert_eq!(handle, i);
    }
    let edges: [(usize, usize, u64); 10] = [
        (0, 1, 9),
        (0, 2, 12),
        (0, 3, 9),
        (0, 4, 11),
        (0, 5, 8),
        (1, 5, 15),
        (1, 2, 10),
        (2, 3, 8),
        (3, 4, 14),
        (4, 5, 12),
    ];
    for (a, b, w) in edges {
        Node::add_weighted_undirected_edge(&mut graph, a, b, w);
    }
    graph
}

#[test]
fn worked_example_from_2_to_5() {
    let graph = six_nodes();
    let search = Dijkstras::new(&graph, 2, 5);
    assert_eq!(search.run(), Ok((vec![2, 0, 5], 20)));
}

#[test]
fn source_is_target() {
    let graph = six_nodes();
    assert_eq!(Dijkstras::new(&graph, 3, 3).run(), Ok((vec![3], 0)));
}

#[test]
fn unreachable_target_is_no_path_found() {
    let mut graph = six_nodes();
    let lonely = graph.add_node(Node::empty());
    assert_eq!(Dijkstras::new(&graph, 0, lonely).run(), Err(PathError::NoPathFound));
    assert_eq!(Dijkstras::new(&graph, lonely, 0).run(), Err(PathError::NoPathFound));
}

#[test]
fn target_outside_the_graph_is_dangling() {
    let graph = six_nodes();
    assert_eq!(Dijkstras::new(&graph, 0, 6).run(), Err(PathError::DanglingReference));
}

#[test]
fn directed_edges_are_followed_one_way() {
    let mut graph = Graph::new();
    let a = graph.add_node(Node::empty());
    let b = graph.add_node(Node::empty());
    Node::add_weighted_directed_edge(&mut graph, a, b, 4);
    assert_eq!(Dijkstras::new(&graph, a, b).run(), Ok((vec![a, b], 4)));
    assert_eq!(Dijkstras::new(&graph, b, a).run(), Err(PathError::NoPathFound));
}

#[test]
fn first_step_relaxes_and_finalizes_the_nearest() {
    let graph = six_nodes();
    let mut search = Dijkstras::new(&graph, 2, 5);
    assert_eq!(search.working_nodes().len(), 1);
    let finished = search.step();
    assert!(!finished);
    let expected = vec![
        WorkingNode { node: 2, distance: Distance::Finite(0), finalized: true, predecessor: None },
        WorkingNode {
            node: 0,
            distance: Distance::Finite(12),
            finalized: false,
            predecessor: Some(2),
        },
        WorkingNode {
            node: 1,
            distance: Distance::Finite(10),
            finalized: false,
            predecessor: Some(2),
        },
        WorkingNode { node: 3, distance: Distance::Finite(8), finalized: true, predecessor: Some(2) },
    ];
    assert_eq!(search.working_nodes(), &expected);
    assert_eq!(search.last_updated(), 3);
}

#[test]
fn ties_go_to_the_node_discovered_first() {
    let mut graph = Graph::new();
    let s = graph.add_node(Node::empty());
    let a = graph.add_node(Node::empty());
    let b = graph.add_node(Node::empty());
    Node::add_weighted_directed_edge(&mut graph, s, a, 5);
    Node::add_weighted_directed_edge(&mut graph, s, b, 5);
    let mut search = Dijkstras::new(&graph, s, b);
    assert!(!search.step());
    assert_eq!(search.last_updated(), 1);
    assert!(search.working_nodes()[1].finalized);
    assert!(!search.working_nodes()[2].finalized);
    assert!(search.step());
    assert_eq!(search.last_updated(), 2);
}

#[test]
fn a_finalized_distance_is_never_lowered() {
    let mut graph = Graph::new();
    let s = graph.add_node(Node::empty());
    let a = graph.add_node(Node::empty());
    let b = graph.add_node(Node::empty());
    Node::add_weighted_directed_edge(&mut graph, s, a, 1);
    Node::add_weighted_directed_edge(&mut graph, s, b, 2);
    Node::add_unweighted_directed_edge(&mut graph, b, a);
    let mut search = Dijkstras::new(&graph, s, 99);
    while !search.step() {}
    let nodes = search.working_nodes();
    assert_eq!(nodes[1].distance, Distance::Finite(1));
    assert_eq!(nodes[1].predecessor, Some(s));
    assert!(nodes.iter().all(|n| n.finalized));
}

#[test]
fn cheaper_detour_replaces_the_direct_edge() {
    let mut graph = Graph::new();
    let s = graph.add_node(Node::empty());
    let a = graph.add_node(Node::empty());
    let b = graph.add_node(Node::empty());
    Node::add_weighted_directed_edge(&mut graph, s, a, 10);
    Node::add_weighted_directed_edge(&mut graph, s, b, 1);
    Node::add_weighted_directed_edge(&mut graph, b, a, 1);
    assert_eq!(Dijkstras::new(&graph, s, a).run(), Ok((vec![s, b, a], 2)));
}

#[test]
fn weights_near_the_limit_do_not_overflow() {
    let mut graph = Graph::new();
    let a = graph.add_node(Node::empty());
    let b = graph.add_node(Node::empty());
    let c = graph.add_node(Node::empty());
    Node::add_weighted_directed_edge(&mut graph, a, b, u64::MAX);
    Node::add_weighted_directed_edge(&mut graph, b, c, u64::MAX);
    assert_eq!(
        Dijkstras::new(&graph, a, c).run(),
        Ok((vec![a, b, c], 2 * (u64::MAX as u128)))
    );
}

#[test]
fn search_leaves_the_graph_alone() {
    let graph = six_nodes();
    let before: Vec<Vec<(usize, u64)>> =
        (0..6).map(|i| graph.node(i).out_edges().clone()).collect();
    let _ = Dijkstras::new(&graph, 2, 5).run();
    let after: Vec<Vec<(usize, u64)>> =
        (0..6).map(|i| graph.node(i).out_edges().clone()).collect();
    assert_eq!(before, after);
    assert_eq!(after[2], vec![(0, 12), (1, 10), (3, 8)]);
}

#[test]
fn infinite_is_above_every_finite_distance() {
    assert!(Distance::Finite(0).less_than(Distance::Finite(1)));
    assert!(!Distance::Finite(1).less_than(Distance::Finite(1)));
    assert!(!Distance::Finite(2).less_than(Distance::Finite(1)));
    assert!(Distance::Finite(u128::MAX).less_than(Distance::Infinite));
    assert!(!Distance::Infinite.less_than(Distance::Infinite));
    assert!(!Distance::Infinite.less_than(Distance::Finite(0)));
}

#[test]
fn reversed_turns_the_order_round() {
    assert_eq!(reversed(&vec![1, 2, 3]), vec![3, 2, 1]);
    assert_eq!(reversed(&Vec::new()), Vec::<usize>::new());
}

#[test]
fn unweighted_edges_cost_nothing() {
    let mut graph = Graph::new();
    let a = graph.add_node(Node::empty());
    let b = graph.add_node(Node::empty());
    let c = graph.add_node(Node::empty());
    Node::add_unweighted_undirected_edge(&mut graph, a, b);
    Node::add_unweighted_undirected_edge(&mut graph, b, c);
    Node::add_weighted_undirected_edge(&mut graph, a, c, 1);
    assert_eq!(Dijkstras::new(&graph, a, c).run(), Ok((vec![a, b, c], 0)));
}

#[test]
fn steps_after_the_end_go_on_to_exhaustion() {
    let graph = six_nodes();
    let mut search = Dijkstras::new(&graph, 2, 3);
    assert!(search.step());
    let mut steps = 0;
    while !search.step() {
        steps += 1;
    }
    assert_eq!(steps, 4);
    assert!(search.working_nodes().iter().all(|n| n.finalized));
    assert_eq!(search.run(), Ok((vec![2, 3], 8)));
}
