use decision_maths::algorithm::SteppedAlgorithm;
use decision_maths::graphs::algorithms::{Dijkstras, PathError, Prims};
use decision_maths::graphs::{EdgeType, Graph, Node};

struct Dice(u64);

impl Dice {
    fn roll(&mut self, sides: u64) -> u64 {
        self.0 = self.0.wrapping_mul(6364136223846793005).wrapping_add(1442695040888963407);
        (self.0 >> 33) % sides
    }
}

fn random_graph(dice: &mut Dice, nodes: usize, chances: u64) -> Graph {
    let mut graph = Graph::new();
    for i in 0..nodes {
        graph.add_node(Node::empty_id(i));
    }
    for a in 0..nodes {
        for b in 0..nodes {
            if a != b && dice.roll(chances) == 0 && Node::edge_type_to(&graph, a, b).is_none() {
                let weight = dice.roll(6);
                if dice.roll(2) == 0 {
                    Node::add_weighted_directed_edge(&mut graph, a, b, weight);
                } else if Node::edge_type_to(&graph, b, a).is_none() {
                    Node::add_weighted_undirected_edge(&mut graph, a, b, weight);
                }
            }
        }
    }
    graph
}

fn cheapest_by_enumeration(
    graph: &Graph,
    at: usize,
    end: usize,
    seen: &mut Vec<bool>,
    cost: u128,
    best: &mut Option<u128>,
) {
    if at == end {
        if best.map_or(true, |b| cost < b) {
            *best = Some(cost);
        }
        return;
    }
    seen[at] = true;
    for &(to, weight) in graph.node(at).out_edges() {
        if !seen[to] {
            cheapest_by_enumeration(graph, to, end, seen, cost + weight as u128, best);
        }
    }
    seen[at] = false;
}

fn drive<A: SteppedAlgorithm>(mut algorithm: A, limit: usize) -> (A, usize) {
    let mut steps = 1;
    while !algorithm.step() {
        steps += 1;
        assert!(steps <= limit);
    }
    (algorithm, steps)
}

#[test]
fn cost_is_the_sum_along_the_path_and_none_is_cheaper() {
    let mut dice = Dice(7);
    for round in 0..60 {
        let nodes = 2 + round % 6;
        let graph = random_graph(&mut dice, nodes, 3);
        for start in 0..nodes {
            for end in 0..nodes {
                let mut best = None;
                let mut seen = vec![false; nodes];
                cheapest_by_enumeration(&graph, start, end, &mut seen, 0, &mut best);
                match Dijkstras::new(&graph, start, end).run() {
                    Ok((path, cost)) => {
                        assert_eq!(Some(cost), best);
                        assert_eq!(path.first(), Some(&start));
                        assert_eq!(path.last(), Some(&end));
                        let mut sum: u128 = 0;
                        for pair in path.windows(2) {
                            let edge = graph
                                .node(pair[0])
                                .out_edges()
                                .iter()
                                .find(|e| e.0 == pair[1])
                                .expect("the path follows edges");
                            sum += edge.1 as u128;
                        }
                        assert_eq!(sum, cost);
                    }
                    Err(error) => {
                        assert_eq!(error, PathError::NoPathFound);
                        assert_eq!(best, None);
                    }
                }
            }
        }
    }
}

#[test]
fn result_is_a_tree_of_the_wanted_size_or_of_all_that_can_be_reached() {
    let mut dice = Dice(11);
    for round in 0..60 {
        let nodes = 1 + round % 7;
        let graph = random_graph(&mut dice, nodes, 3);
        for start in 0..nodes {
            let mut reached = vec![false; nodes];
            let mut stack = vec![start];
            reached[start] = true;
            while let Some(at) = stack.pop() {
                for &(to, _) in graph.node(at).out_edges() {
                    if !reached[to] {
                        reached[to] = true;
                        stack.push(to);
                    }
                }
            }
            let reachable = reached.iter().filter(|r| **r).count();
            for wanted in 1..nodes + 2 {
                let tree = Prims::new(&graph, start, wanted).run();
                assert_eq!(tree.len(), wanted.min(reachable));
                let mut edges = 0;
                for k in 0..tree.len() {
                    for &(to, weight) in tree.node(k).out_edges() {
                        assert_eq!(weight, 0);
                        assert_eq!(
                            Node::edge_type_to(&tree, k, to),
                            Some(EdgeType::UndirectedUnweighted)
                        );
                        edges += 1;
                    }
                }
                assert_eq!(edges, 2 * (tree.len() - 1));
                let mut joined = vec![false; tree.len()];
                let mut stack = vec![0];
                joined[0] = true;
                while let Some(at) = stack.pop() {
                    for &(to, _) in tree.node(at).out_edges() {
                        if !joined[to] {
                            joined[to] = true;
                            stack.push(to);
                        }
                    }
                }
                assert!(joined.iter().all(|j| *j));
            }
        }
    }
}

#[test]
fn edges_classify_as_they_were_made() {
    let mut dice = Dice(3);
    for _ in 0..40 {
        let mut graph = Graph::new();
        for i in 0..5 {
            graph.add_node(Node::empty_id(i));
        }
        let a = dice.roll(5) as usize;
        let b = dice.roll(5) as usize;
        if a == b {
            continue;
        }
        let weight = dice.roll(3);
        if dice.roll(2) == 0 {
            Node::add_weighted_undirected_edge(&mut graph, a, b, weight);
            let expected = if weight > 0 {
                EdgeType::UndirectedWeighted
            } else {
                EdgeType::UndirectedUnweighted
            };
            assert_eq!(Node::edge_type_to(&graph, a, b), Some(expected));
            assert_eq!(Node::edge_type_to(&graph, b, a), Some(expected));
        } else {
            Node::add_weighted_directed_edge(&mut graph, a, b, weight);
            let expected = if weight > 0 {
                EdgeType::DirectedWeighted
            } else {
                EdgeType::DirectedUnweighted
            };
            assert_eq!(Node::edge_type_to(&graph, a, b), Some(expected));
            assert_eq!(Node::edge_type_to(&graph, b, a), None);
        }
    }
}

#[test]
fn out_edges_give_back_the_insertions_in_order() {
    let mut dice = Dice(5);
    let mut graph = Graph::new();
    for i in 0..4 {
        graph.add_node(Node::empty_id(i));
    }
    let mut expected: Vec<Vec<(usize, u64)>> = vec![Vec::new(); 4];
    for _ in 0..30 {
        let a = dice.roll(4) as usize;
        let b = dice.roll(4) as usize;
        let weight = dice.roll(9);
        Node::add_weighted_directed_edge(&mut graph, a, b, weight);
        expected[a].push((b, weight));
        let _ = Dijkstras::new(&graph, a, b).run();
        let _ = Prims::new(&graph, b, 4).run();
    }
    for a in 0..4 {
        assert_eq!(graph.node(a).out_edges(), &expected[a]);
    }
}

#[test]
fn both_algorithms_are_driven_the_same_way() {
    let mut graph = Graph::new();
    for i in 0..4 {
        graph.add_node(Node::empty_id(i));
    }
    Node::add_weighted_undirected_edge(&mut graph, 0, 1, 1);
    Node::add_weighted_undirected_edge(&mut graph, 1, 2, 1);
    Node::add_weighted_undirected_edge(&mut graph, 2, 3, 1);
    let (search, steps) = drive(Dijkstras::new(&graph, 0, 3), 4);
    assert_eq!(steps, 3);
    assert_eq!(search.run(), Ok((vec![0, 1, 2, 3], 3)));
    let (prims, steps) = drive(Prims::new(&graph, 0, 4), 5);
    assert_eq!(steps, 4);
    assert_eq!(prims.run().len(), 4);
}
