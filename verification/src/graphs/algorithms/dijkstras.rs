use super::dijkstras_lemmas::{
    lemma_discovered_fit, lemma_finalize, lemma_initial, lemma_least_is, lemma_outcome,
    lemma_path_to, lemma_position_is, lemma_relax_edge, lemma_relaxed, lemma_steps_keep,
    lemma_sum_fits,
};
use super::dijkstras_state::{DijkstraState, Distance, WorkingNode};
use crate::algorithm::SteppedAlgorithm;
use crate::graphs::graph::Graph;
use crate::graphs::routes::total;
use vstd::prelude::*;

verus! {

/// Why a search gives no route.
#[derive(Debug, Clone, Copy, PartialEq, Eq, Structural)]
pub enum PathError {
    /// A handle that the search holds without owning it denotes no node of the graph.
    DanglingReference,
    /// No route leads from the source to the target.
    NoPathFound,
}

/// A search for a cheapest route from one node of a graph to another.
///
/// The search keeps a record for each node it has discovered. A step relaxes
/// the edges out of the node finalized last and then finalizes the nearest
/// node that is not finalized yet. The graph is only read.
pub struct Dijkstras<'a> {
    graph: &'a Graph,
    nodes: Vec<WorkingNode>,
    last_updated: usize,
    end: usize,
    depth: Ghost<Seq<nat>>,
}

impl<'a> View for Dijkstras<'a> {
    type V = DijkstraState;

    closed spec fn view(&self) -> DijkstraState {
        DijkstraState {
            graph: self.graph@,
            nodes: self.nodes@,
            last_updated: self.last_updated as int,
            end: self.end,
            depth: self.depth@,
        }
    }
}

/// A copy of `items` in the opposite order.
pub fn reversed(items: &Vec<usize>) -> (result: Vec<usize>)
    ensures
        result@ == items@.reverse(),
{
    let mut result: Vec<usize> = Vec::new();
    let mut k: usize = items.len();
    while k > 0
        invariant
            k <= items.len(),
            result.len() == items.len() - k,
            forall|t: int| 0 <= t < result.len() ==> result@[t] == items@[items.len() - 1 - t],
        decreases k,
    {
        k = k - 1;
        result.push(items[k]);
    }
    assert(result@ =~= items@.reverse());
    result
}

impl<'a> Dijkstras<'a> {
    /// A search from `start_node`, which is a node of `graph`, to `end_node`,
    /// which need not be: see `run`.
    pub fn new(graph: &'a Graph, start_node: usize, end_node: usize) -> (search: Self)
        requires
            graph@.wf(),
            graph@.has_node(start_node),
        ensures
            search@ == DijkstraState::initial(graph@, start_node, end_node),
            search@.inv(),
    {
        let start_node_dijkstras = WorkingNode {
            node: start_node,
            distance: Distance::Finite(0),
            finalized: true,
            predecessor: None,
        };
        let mut nodes: Vec<WorkingNode> = Vec::new();
        nodes.push(start_node_dijkstras);
        let ghost depth = seq![0nat];
        let search = Dijkstras { graph, nodes, last_updated: 0, end: end_node, depth: Ghost(depth) };
        proof {
            assert(search@.nodes =~= DijkstraState::initial(graph@, start_node, end_node).nodes);
            lemma_initial(graph@, start_node, end_node);
        }
        search
    }

    /// The records of the discovered nodes, in the order of their discovery.
    pub fn working_nodes(&self) -> (nodes: &Vec<WorkingNode>)
        ensures
            nodes@ == self@.nodes,
    {
        &self.nodes
    }

    /// The position of the record of the node finalized last.
    pub fn last_updated(&self) -> (position: usize)
        ensures
            position == self@.last_updated,
    {
        self.last_updated
    }

    /// The position of the record of the node `node`, if it has been discovered.
    fn get_dijkstras_node_i(&self, node: usize) -> (found: Option<usize>)
        ensures
            match found {
                Some(i) => self@.position(node) == Some(i as int) && self@.is_position(
                    node,
                    i as int,
                ),
                None => self@.position(node) is None,
            },
    {
        let mut i: usize = 0;
        while i < self.nodes.len()
            invariant
                i <= self.nodes.len(),
                forall|j: int| 0 <= j < i ==> (#[trigger] self@.nodes[j]).node != node,
            decreases self.nodes.len() - i,
        {
            if self.nodes[i].node == node {
                proof {
                    lemma_position_is(self@, node, i as int);
                }
                return Some(i);
            }
            i = i + 1;
        }
        None
    }

    /// Relaxes the edges out of the node finalized last, in their order.
    fn update_working_values(&mut self)
        requires
            old(self)@.inv(),
        ensures
            final(self)@ == old(self)@.relaxed(),
            final(self)@.inv_relaxing(final(self)@.degree()),
    {
        let ghost before = self@;
        let graph = self.graph;
        let last = self.nodes[self.last_updated];
        proof {
            lemma_relaxed(before);
            assert(before.nodes[before.last_updated].distance is Finite);
        }
        let last_distance = match last.distance {
            Distance::Finite(d) => d,
            Distance::Infinite => {
                return ;
            },
        };
        let edges = graph.node(last.node).out_edges();
        let mut k: usize = 0;
        while k < edges.len()
            invariant
                k <= edges.len(),
                before.inv(),
                edges@ == before.graph.out(last.node),
                last == before.nodes[before.last_updated],
                last.distance == Distance::Finite(last_distance),
                self@ == before.relax_edges(edges@.subrange(0, k as int)),
                self@.inv_relaxing(k as int),
                self@.graph == before.graph,
                self@.last_updated == before.last_updated,
                self@.nodes[self@.last_updated] == last,
                before.continued_by(self@),
            decreases edges.len() - k,
        {
            let ghost s = self@;
            let target = edges[k].0;
            let weight = edges[k].1;
            proof {
                lemma_relax_edge(s, k as int);
                lemma_sum_fits(s, weight);
                assert(edges@.subrange(0, k + 1).drop_last() =~= edges@.subrange(0, k as int));
                assert(edges@.subrange(0, k + 1).last() == edges@[k as int]);
            }
            let found = self.get_dijkstras_node_i(target);
            let i = match found {
                Some(i) => i,
                None => {
                    self.nodes.push(
                        WorkingNode {
                            node: target,
                            distance: Distance::Infinite,
                            finalized: false,
                            predecessor: None,
                        },
                    );
                    self.depth = Ghost(self.depth@.push(0));
                    self.nodes.len() - 1
                },
            };
            let node_to_update = self.nodes[i];
            if !node_to_update.finalized {
                let new_possible_working_value = Distance::Finite(last_distance + weight as u128);
                if new_possible_working_value.less_than(node_to_update.distance) {
                    self.nodes.set(
                        i,
                        WorkingNode {
                            node: node_to_update.node,
                            distance: new_possible_working_value,
                            finalized: false,
                            predecessor: Some(last.node),
                        },
                    );
                    self.depth = Ghost(self.depth@.update(i as int, s.depth[s.last_updated] + 1));
                }
            }
            proof {
                let t = s.relax_edge(edges@[k as int]);
                assert(self@.nodes =~= t.nodes);
                assert(self@.depth =~= t.depth);
                assert(self@ == t);
            }
            k = k + 1;
        }
        proof {
            assert(edges@.subrange(0, k as int) =~= edges@);
        }
    }

    /// The position of the nearest node that is not finalized: the first of
    /// them where several are equally near, `None` where there is none.
    fn least_working_value(&self) -> (least: Option<usize>)
        ensures
            match least {
                Some(i) => self@.least() == Some(i as int) && self@.is_least(i as int),
                None => self@.least() is None && forall|j: int| !self@.is_candidate(j),
            },
    {
        let mut min: Option<usize> = None;
        let mut min_distance = Distance::Infinite;
        let mut i: usize = 0;
        while i < self.nodes.len()
            invariant
                i <= self.nodes.len(),
                match min {
                    Some(b) => {
                        &&& b < i
                        &&& self@.is_candidate(b as int)
                        &&& min_distance == self@.nodes[b as int].distance
                        &&& forall|j: int|
                            0 <= j < i && #[trigger] self@.is_candidate(j) ==> self@.dist(b as int)
                                <= self@.dist(j) && (j < b ==> self@.dist(b as int) < self@.dist(j))
                    },
                    None => {
                        &&& min_distance == Distance::Infinite
                        &&& forall|j: int| 0 <= j < i ==> !#[trigger] self@.is_candidate(j)
                    },
                },
            decreases self.nodes.len() - i,
        {
            let node = self.nodes[i];
            if !node.finalized && node.distance.less_than(min_distance) {
                min = Some(i);
                min_distance = node.distance;
            }
            i = i + 1;
        }
        proof {
            match min {
                Some(b) => {
                    assert(self@.is_least(b as int));
                    lemma_least_is(self@, b as int);
                },
                None => {
                    assert forall|j: int| !self@.is_candidate(j) by {}
                },
            }
        }
        min
    }

    /// The route to the target that the predecessors describe, from the
    /// source to the target, and its weight.
    fn backtrack_from_last(&self) -> (result: Result<(Vec<usize>, u128), PathError>)
        requires
            self@.inv(),
        ensures
            match result {
                Ok(found) => self@.outcome() == Some((found.0@, found.1 as nat)),
                Err(e) => e == PathError::NoPathFound && self@.outcome() is None,
            },
    {
        let ghost s = self@;
        let end = match self.get_dijkstras_node_i(self.end) {
            Some(i) => i,
            None => {
                return Err(PathError::NoPathFound);
            },
        };
        let cost = match self.nodes[end].distance {
            Distance::Finite(d) => d,
            Distance::Infinite => {
                return Err(PathError::NoPathFound);
            },
        };
        let ghost full = s.path_to(end as int);
        proof {
            lemma_path_to(s, end as int);
        }
        let mut node_path: Vec<usize> = Vec::new();
        node_path.push(self.nodes[end].node);
        let mut current = end;
        loop
            invariant
                s == self@,
                s.shaped(),
                0 <= end < s.nodes.len(),
                full == s.path_to(end as int),
                full.len() == s.depth[end as int] + 1,
                0 <= current < s.nodes.len(),
                node_path.len() >= 1,
                node_path.len() + s.depth[current as int] == full.len(),
                forall|t: int|
                    0 <= t < node_path.len() ==> node_path@[t] == full[full.len() - 1 - t],
                s.path_to(current as int) == full.subrange(0, s.depth[current as int] as int + 1),
            ensures
                node_path.len() == full.len(),
                forall|t: int|
                    0 <= t < node_path.len() ==> node_path@[t] == full[full.len() - 1 - t],
            decreases s.depth[current as int],
        {
            proof {
                lemma_path_to(s, current as int);
            }
            let previous = match self.nodes[current].predecessor {
                Some(previous) => previous,
                None => {
                    break ;
                },
            };
            let previous_node_i = match self.get_dijkstras_node_i(previous) {
                Some(i) => i,
                None => {
                    return Err(PathError::DanglingReference);
                },
            };
            proof {
                let j = previous_node_i as int;
                lemma_path_to(s, j);
                assert(s.path_to(j) =~= s.path_to(current as int).drop_last());
                assert(s.path_to(j) =~= full.subrange(0, s.depth[j] as int + 1));
            }
            node_path.push(self.nodes[previous_node_i].node);
            current = previous_node_i;
        }
        let path = reversed(&node_path);
        proof {
            assert(path@ =~= full);
        }
        Ok((path, cost))
    }
}

impl<'a> SteppedAlgorithm for Dijkstras<'a> {
    type ReturnType = Result<(Vec<usize>, u128), PathError>;

    open spec fn inv(&self) -> bool {
        self@.inv()
    }

    open spec fn remaining(&self) -> nat {
        self@.remaining()
    }

    /// Relaxes the edges out of the node finalized last, then finalizes the
    /// nearest node that is not finalized. Reports that the search has
    /// finished when that node is the target, or when there is no such node.
    fn step(&mut self) -> (finished: bool)
        ensures
            final(self)@ == old(self)@.next(),
            finished == old(self)@.next_finishes(),
            finished ==> final(self)@.settled(),
            old(self)@.continued_by(final(self)@),
            final(self)@.source() == old(self)@.source(),
    {
        proof {
            lemma_relaxed(old(self)@);
        }
        self.update_working_values();
        let ghost relaxed = self@;
        let to_finalise = match self.least_working_value() {
            Some(i) => i,
            None => {
                proof {
                    assert forall|i: int| 0 <= i < relaxed.nodes.len() implies (
                    #[trigger] relaxed.nodes[i]).finalized by {
                        assert(!relaxed.is_candidate(i));
                    }
                    assert(relaxed.exhausted());
                }
                return true;
            },
        };
        let finalise_node = self.nodes[to_finalise];
        self.nodes.set(
            to_finalise,
            WorkingNode {
                node: finalise_node.node,
                distance: finalise_node.distance,
                finalized: true,
                predecessor: finalise_node.predecessor,
            },
        );
        self.last_updated = to_finalise;
        proof {
            lemma_finalize(relaxed, to_finalise as int);
            assert(self@.nodes =~= relaxed.finalize(to_finalise as int).nodes);
            assert(self@ == relaxed.finalize(to_finalise as int));
            lemma_discovered_fit(self@);
        }
        finalise_node.node == self.end
    }

    /// Steps until the search has finished and gives the cheapest route
    /// from the source to the target with its weight.
    ///
    /// Fails with `DanglingReference` exactly when the target is no node of
    /// the graph, without a step, and with `NoPathFound` exactly when it is
    /// one and no route leads to it.
    fn run(self) -> (result: Self::ReturnType)
        ensures
            result is Ok <==> self@.graph.has_node(self@.end) && self@.graph.reachable(
                self@.source(),
                self@.end,
            ),
            match result {
                Ok(found) => exists|weights: Seq<u64>|
                    total(weights) == found.1 && #[trigger] self@.graph.is_cheapest_route(
                        self@.source(),
                        self@.end,
                        found.0@,
                        weights,
                    ),
                Err(PathError::DanglingReference) => !self@.graph.has_node(self@.end),
                Err(PathError::NoPathFound) => self@.graph.has_node(self@.end)
                    && !self@.graph.reachable(self@.source(), self@.end),
            },
            self@.graph.has_node(self@.end) ==> exists|n: nat|
                #![trigger self@.finishes_in(n)]
                self@.finishes_in(n) && match result {
                    Ok(found) => self@.finished_state(n).outcome() == Some(
                        (found.0@, found.1 as nat),
                    ),
                    Err(_) => self@.finished_state(n).outcome() is None,
                },
    {
        let ghost start = self@;
        let mut search = self;
        if search.end >= search.graph.len() {
            return Err(PathError::DanglingReference);
        }
        let ghost mut n: nat = 0;
        loop
            invariant_except_break
                search@ == start.after(n),
                search@.inv(),
                forall|m: nat| m < n ==> !(#[trigger] start.after(m)).next_finishes(),
            ensures
                start.finishes_in(n),
                search@ == start.finished_state(n),
                search@.inv(),
                search@.settled(),
            decreases search@.remaining(),
        {
            let finished = search.step();
            if finished {
                break ;
            }
            proof {
                n = n + 1;
            }
        }
        proof {
            lemma_outcome(search@);
            lemma_steps_keep(start, n + 1);
        }
        search.backtrack_from_last()
    }
}

} // verus!
