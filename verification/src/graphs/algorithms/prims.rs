use super::prims_lemmas::{
    lemma_cheapest_crossing_is, lemma_exhausted_spans, lemma_extend, lemma_initial,
    lemma_result_is_spanning_tree, lemma_steps_keep,
};
use super::prims_state::{scanned_before, PrimState};
use crate::algorithm::SteppedAlgorithm;
use crate::graphs::graph::{Graph, Node, NodeView};
use vstd::prelude::*;

verus! {

/// A node without edges, with the label of `node`.
pub fn create_empty_node_from_node(node: &Node) -> (copy: Node)
    ensures
        copy@ == (NodeView { id: node@.id, edges: Seq::empty() }),
{
    match node.id() {
        Some(id) => Node::empty_id(id),
        None => Node::empty(),
    }
}

/// The construction of a spanning tree of the part of a graph that can be
/// reached from a start node.
///
/// The construction keeps a frontier of visited nodes and builds a tree of
/// mirrors, a graph of its own. A step takes the cheapest edge that leaves
/// the frontier and attaches a mirror of its target to the mirror of its
/// source, with an unweighted undirected edge. The graph is only read.
pub struct Prims<'a> {
    graph: &'a Graph,
    visited: Vec<(usize, usize)>,
    tree: Graph,
    target_nodes: usize,
}

impl<'a> View for Prims<'a> {
    type V = PrimState;

    closed spec fn view(&self) -> PrimState {
        PrimState {
            graph: self.graph@,
            visited: self.visited@,
            tree: self.tree@,
            target_nodes: self.target_nodes,
        }
    }
}

impl<'a> Prims<'a> {
    /// A construction from `start_node`, which is a node of `graph`, that
    /// stops when the tree has `nodes_count` nodes.
    pub fn new(graph: &'a Graph, start_node: usize, nodes_count: usize) -> (prims: Self)
        requires
            graph@.wf(),
            graph@.has_node(start_node),
        ensures
            prims@ == PrimState::initial(graph@, start_node, nodes_count),
            prims@.inv(),
    {
        let mut tree = Graph::new();
        let new_graph_start_node = tree.add_node(create_empty_node_from_node(graph.node(start_node)));
        let mut visited: Vec<(usize, usize)> = Vec::new();
        visited.push((start_node, new_graph_start_node));
        let prims = Prims { graph, visited, tree, target_nodes: nodes_count };
        proof {
            let initial = PrimState::initial(graph@, start_node, nodes_count);
            assert(prims@.tree.nodes =~= initial.tree.nodes);
            assert(prims@.visited =~= initial.visited);
            lemma_initial(graph@, start_node, nodes_count);
        }
        prims
    }

    /// The frontier: the visited nodes, each with the handle of its mirror
    /// in the tree, in the order of their discovery.
    pub fn visited(&self) -> (visited: &Vec<(usize, usize)>)
        ensures
            visited@ == self@.visited,
    {
        &self.visited
    }

    /// The tree built so far.
    pub fn tree(&self) -> (tree: &Graph)
        ensures
            tree@ == self@.tree,
    {
        &self.tree
    }

    /// Whether the node `node` of the graph is in the frontier.
    fn is_visited(&self, node: usize) -> (found: bool)
        ensures
            found == self@.is_visited(node),
    {
        let mut i: usize = 0;
        while i < self.visited.len()
            invariant
                i <= self.visited.len(),
                forall|j: int| 0 <= j < i ==> (#[trigger] self@.visited[j]).0 != node,
            decreases self.visited.len() - i,
        {
            if self.visited[i].0 == node {
                assert(self@.visited[i as int].0 == node);
                return true;
            }
            i = i + 1;
        }
        false
    }

    /// The first of the cheapest edges that leave the frontier: the
    /// position of its source in the frontier, its number among the edges
    /// of the source, and its weight.
    fn minimum_edge(&self) -> (found: Option<(usize, usize, u64)>)
        requires
            self@.inv(),
        ensures
            match found {
                Some(m) => self@.is_cheapest_crossing(m.0 as int, m.1 as int)
                    && self@.cheapest_crossing() == Some((m.0 as int, m.1 as int)) && m.2
                    == self@.edge(m.0 as int, m.1 as int).1,
                None => self@.cheapest_crossing() is None && forall|i: int, k: int|
                    !self@.is_crossing(i, k),
            },
    {
        let ghost s = self@;
        let graph = self.graph;
        let mut minimum_edge: Option<(usize, usize, u64)> = None;
        let ghost mut best: Option<(int, int)> = None;
        let mut i: usize = 0;
        while i < self.visited.len()
            invariant
                s == self@,
                s.inv(),
                graph@ == s.graph,
                i <= self.visited.len(),
                s.is_cheapest_so_far(best, i as int, 0),
                match minimum_edge {
                    Some(m) => best == Some((m.0 as int, m.1 as int)) && m.2 == s.edge(
                        m.0 as int,
                        m.1 as int,
                    ).1,
                    None => best is None,
                },
            decreases self.visited.len() - i,
        {
            let edges = graph.node(self.visited[i].0).out_edges();
            let mut k: usize = 0;
            while k < edges.len()
                invariant
                    s == self@,
                    s.inv(),
                    i < self.visited.len(),
                    edges@ == s.graph.out(s.visited[i as int].0),
                    k <= edges.len(),
                    s.is_cheapest_so_far(best, i as int, k as int),
                    match minimum_edge {
                        Some(m) => best == Some((m.0 as int, m.1 as int)) && m.2 == s.edge(
                            m.0 as int,
                            m.1 as int,
                        ).1,
                        None => best is None,
                    },
                decreases edges.len() - k,
            {
                let edge = edges[k];
                let cheaper = match minimum_edge {
                    Some(m) => edge.1 < m.2,
                    None => true,
                };
                let ghost old_best = best;
                if cheaper && !self.is_visited(edge.0) {
                    minimum_edge = Some((i, k, edge.1));
                    proof {
                        best = Some((i as int, k as int));
                    }
                }
                proof {
                    assert(s.edge(i as int, k as int) == edge);
                    assert forall|i2: int, k2: int|
                        scanned_before(i2, k2, i as int, k + 1) implies scanned_before(
                        i2,
                        k2,
                        i as int,
                        k as int,
                    ) || (i2 == i && k2 == k) by {}
                    assert(s.is_cheapest_so_far(best, i as int, k + 1));
                }
                k = k + 1;
            }
            proof {
                assert forall|i2: int, k2: int|
                    s.is_crossing(i2, k2) && scanned_before(
                        i2,
                        k2,
                        i + 1,
                        0,
                    ) implies scanned_before(i2, k2, i as int, edges.len() as int) by {}
                assert(s.is_cheapest_so_far(best, i + 1, 0));
            }
            i = i + 1;
        }
        proof {
            match best {
                Some(b) => {
                    assert forall|i2: int, k2: int| #[trigger]
                        s.is_crossing(i2, k2) implies scanned_before(i2, k2, i as int, 0) by {}
                    assert(s.is_cheapest_crossing(b.0, b.1));
                    lemma_cheapest_crossing_is(s, b.0, b.1);
                },
                None => {
                    assert forall|i2: int, k2: int| !s.is_crossing(i2, k2) by {
                        if s.is_crossing(i2, k2) {
                            assert(scanned_before(i2, k2, i as int, 0));
                        }
                    }
                },
            }
        }
        minimum_edge
    }
}

impl<'a> SteppedAlgorithm for Prims<'a> {
    type ReturnType = Graph;

    open spec fn inv(&self) -> bool {
        self@.inv()
    }

    open spec fn remaining(&self) -> nat {
        self@.remaining()
    }

    /// Takes the cheapest edge that leaves the frontier, the first of them
    /// where several are equally cheap. Reports that the construction has
    /// finished, and changes nothing, when the frontier has the wanted
    /// size or no edge leaves it.
    fn step(&mut self) -> (finished: bool)
        ensures
            final(self)@ == old(self)@.next(),
            finished == old(self)@.next_finishes(),
            finished ==> final(self)@.settled() && final(self)@ == old(self)@,
            final(self)@.graph == old(self)@.graph,
    {
        if self.visited.len() == self.target_nodes {
            return true;
        }
        let ghost s = self@;
        let graph = self.graph;
        let minimum_edge = match self.minimum_edge() {
            Some(m) => m,
            None => {
                proof {
                    lemma_exhausted_spans(s);
                }
                return true;
            },
        };
        proof {
            lemma_extend(s, minimum_edge.0 as int, minimum_edge.1 as int);
        }
        let from = self.visited[minimum_edge.0];
        let node_to = graph.node(from.0).out_edges()[minimum_edge.1].0;
        let new_representation_node_to = self.tree.add_node(
            create_empty_node_from_node(graph.node(node_to)),
        );
        let representation_node_from = from.1;
        Node::add_unweighted_undirected_edge(
            &mut self.tree,
            new_representation_node_to,
            representation_node_from,
        );
        self.visited.push((node_to, new_representation_node_to));
        proof {
            let t = s.extend(minimum_edge.0 as int, minimum_edge.1 as int);
            assert(self@.visited =~= t.visited);
            assert(self@.tree == t.tree);
            assert(self@ == t);
        }
        false
    }

    /// Steps until the construction has finished and gives the tree: an
    /// unweighted, undirected tree with a mirror for each visited node, in
    /// the order of their discovery.
    fn run(self) -> (tree: Graph)
        ensures
            exists|n: nat|
                #![trigger self@.finishes_in(n)]
                self@.finishes_in(n) && tree@ == self@.finished_state(n).tree
                    && self@.finished_state(n).inv() && self@.finished_state(n).settled()
                    && self@.finished_state(n).graph == self@.graph && self@.finished_state(
                    n,
                ).start() == self@.start(),
            tree@.is_tree(),
            tree@.edge_count() == 2 * (tree@.len() - 1),
            self@.target_nodes >= 1 ==> tree@.len() == if self@.target_nodes
                <= self@.graph.reachable_from(self@.start()).len() {
                self@.target_nodes as nat
            } else {
                self@.graph.reachable_from(self@.start()).len()
            },
    {
        let ghost start = self@;
        let mut prims = self;
        let ghost mut n: nat = 0;
        loop
            invariant_except_break
                prims@ == start.after(n),
                prims@.inv(),
                forall|m: nat| m < n ==> !(#[trigger] start.after(m)).next_finishes(),
            ensures
                start.finishes_in(n),
                prims@ == start.finished_state(n),
                prims@.inv(),
                prims@.settled(),
            decreases prims@.remaining(),
        {
            let finished = prims.step();
            if finished {
                break ;
            }
            proof {
                n = n + 1;
            }
        }
        proof {
            lemma_result_is_spanning_tree(prims@);
            lemma_steps_keep(start, n + 1);
        }
        prims.tree
    }
}

} // verus!
