use crate::graphs::graph::GraphView;
use crate::graphs::routes::total;
use vstd::prelude::*;

verus! {

/// A tentative distance from the source: a sum of edge weights, or infinite
/// for a node that no edge has reached yet.
#[derive(Debug, Clone, Copy, PartialEq, Eq, Structural)]
pub enum Distance {
    Finite(u128),
    Infinite,
}

impl Distance {
    /// `self` is strictly less than `other`; nothing is greater than infinite.
    pub open spec fn below(self, other: Distance) -> bool {
        match (self, other) {
            (Distance::Finite(a), Distance::Finite(b)) => a < b,
            (Distance::Finite(_), Distance::Infinite) => true,
            (Distance::Infinite, _) => false,
        }
    }

    /// The value of a finite distance.
    pub open spec fn value(self) -> nat {
        match self {
            Distance::Finite(d) => d as nat,
            Distance::Infinite => 0,
        }
    }

    /// Whether `self` is strictly less than `other`.
    pub fn less_than(self, other: Distance) -> (less: bool)
        ensures
            less == self.below(other),
    {
        match (self, other) {
            (Distance::Finite(a), Distance::Finite(b)) => a < b,
            (Distance::Finite(_), Distance::Infinite) => true,
            (Distance::Infinite, _) => false,
        }
    }
}

/// What the search knows of one node it has discovered.
#[derive(Debug, Clone, Copy, PartialEq, Eq, Structural)]
pub struct WorkingNode {
    /// The handle of the node in the graph.
    pub node: usize,
    /// The weight of the cheapest route to the node found so far.
    pub distance: Distance,
    /// Whether the distance is final.
    pub finalized: bool,
    /// The node before this one on that route; `None` for the source.
    pub predecessor: Option<usize>,
}

/// The state of a search for a cheapest route: the graph, the nodes
/// discovered so far in the order of their discovery, the position of the
/// node finalized last, the target, and for each discovered node the number
/// of edges on the route that gave it its distance.
pub struct DijkstraState {
    pub graph: GraphView,
    pub nodes: Seq<WorkingNode>,
    pub last_updated: int,
    pub end: usize,
    pub depth: Seq<nat>,
}

/// The greatest distance that a search can assign to one of `count` discovered nodes.
pub open spec fn distance_bound(count: nat) -> nat {
    count * 0xffff_ffff_ffff_ffff
}

/// The number of finalized nodes among `nodes`.
pub open spec fn finalized_count(nodes: Seq<WorkingNode>) -> nat
    decreases nodes.len(),
{
    if nodes.len() == 0 {
        0
    } else {
        finalized_count(nodes.drop_last()) + if nodes.last().finalized {
            1nat
        } else {
            0nat
        }
    }
}

impl DijkstraState {
    /// The state before the first step: only the source is discovered, at
    /// distance 0 and finalized.
    pub open spec fn initial(graph: GraphView, start: usize, end: usize) -> DijkstraState {
        DijkstraState {
            graph,
            nodes: seq![
                WorkingNode {
                    node: start,
                    distance: Distance::Finite(0),
                    finalized: true,
                    predecessor: None,
                },
            ],
            last_updated: 0,
            end,
            depth: seq![0nat],
        }
    }

    /// The node that the search started from.
    pub open spec fn source(self) -> usize {
        self.nodes[0].node
    }

    /// The distance of the discovered node at position `i`.
    pub open spec fn dist(self, i: int) -> nat {
        self.nodes[i].distance.value()
    }

    /// Whether `i` is the position of the discovered node with handle `node`.
    pub open spec fn is_position(self, node: usize, i: int) -> bool {
        &&& 0 <= i < self.nodes.len()
        &&& self.nodes[i].node == node
        &&& forall|j: int| 0 <= j < i ==> (#[trigger] self.nodes[j]).node != node
    }

    /// The position of the discovered node with handle `node`, if it has been discovered.
    pub open spec fn position(self, node: usize) -> Option<int> {
        if exists|i: int| self.is_position(node, i) {
            Some(choose|i: int| self.is_position(node, i))
        } else {
            None
        }
    }

    /// The state after the edge `edge` out of the node finalized last has
    /// been relaxed. A target that was not discovered yet is discovered. A
    /// finalized target is left alone. Any other target gets the distance
    /// through the node finalized last, and that node as its predecessor,
    /// where this is less than its distance.
    pub open spec fn relax_edge(self, edge: (usize, u64)) -> DijkstraState {
        let last = self.nodes[self.last_updated];
        let through = WorkingNode {
            node: edge.0,
            distance: Distance::Finite((last.distance.value() + edge.1) as u128),
            finalized: false,
            predecessor: Some(last.node),
        };
        let depth = self.depth[self.last_updated] + 1;
        match self.position(edge.0) {
            None => DijkstraState {
                nodes: self.nodes.push(through),
                depth: self.depth.push(depth),
                ..self
            },
            Some(i) => if !self.nodes[i].finalized && through.distance.below(
                self.nodes[i].distance,
            ) {
                DijkstraState {
                    nodes: self.nodes.update(i, through),
                    depth: self.depth.update(i, depth),
                    ..self
                }
            } else {
                self
            },
        }
    }

    /// The state after the edges `edges` have been relaxed, in order.
    pub open spec fn relax_edges(self, edges: Seq<(usize, u64)>) -> DijkstraState
        decreases edges.len(),
    {
        if edges.len() == 0 {
            self
        } else {
            self.relax_edges(edges.drop_last()).relax_edge(edges.last())
        }
    }

    /// The state after all edges out of the node finalized last have been relaxed.
    pub open spec fn relaxed(self) -> DijkstraState {
        self.relax_edges(self.graph.out(self.nodes[self.last_updated].node))
    }

    /// Whether the node at position `i` can be finalized: its distance is
    /// finite and not final yet.
    pub open spec fn is_candidate(self, i: int) -> bool {
        &&& 0 <= i < self.nodes.len()
        &&& !self.nodes[i].finalized
        &&& self.nodes[i].distance is Finite
    }

    /// Whether `i` is the position of the node to finalize next: the first
    /// among the candidates of least distance.
    pub open spec fn is_least(self, i: int) -> bool {
        &&& self.is_candidate(i)
        &&& forall|j: int| #[trigger]
            self.is_candidate(j) ==> self.dist(i) <= self.dist(j) && (j < i ==> self.dist(i)
                < self.dist(j))
    }

    /// The position of the node to finalize next, if there is a candidate.
    pub open spec fn least(self) -> Option<int> {
        if exists|i: int| self.is_least(i) {
            Some(choose|i: int| self.is_least(i))
        } else {
            None
        }
    }

    /// The state after the node at position `i` has been finalized.
    pub open spec fn finalize(self, i: int) -> DijkstraState {
        DijkstraState {
            nodes: self.nodes.update(i, WorkingNode { finalized: true, ..self.nodes[i] }),
            last_updated: i,
            ..self
        }
    }

    /// The state after one step: the edges out of the node finalized last
    /// are relaxed, then the nearest candidate is finalized, if there is one.
    pub open spec fn next(self) -> DijkstraState {
        let relaxed = self.relaxed();
        match relaxed.least() {
            Some(i) => relaxed.finalize(i),
            None => relaxed,
        }
    }

    /// Whether the step from this state reports that the search has
    /// finished: it finalizes the target, or finds no node to finalize.
    pub open spec fn next_finishes(self) -> bool {
        let relaxed = self.relaxed();
        match relaxed.least() {
            Some(i) => relaxed.nodes[i].node == self.end,
            None => true,
        }
    }

    /// The state after `n` steps.
    pub open spec fn after(self, n: nat) -> DijkstraState
        decreases n,
    {
        if n == 0 {
            self
        } else {
            self.after((n - 1) as nat).next()
        }
    }
}

impl DijkstraState {
    /// The node at position `j` is the predecessor of the node at position
    /// `i`: it is finalized, and an edge from it gives `i` its distance.
    pub open spec fn supports(self, j: int, i: int) -> bool {
        &&& 0 <= j < self.nodes.len()
        &&& self.nodes[j].finalized
        &&& self.nodes[i].predecessor == Some(self.nodes[j].node)
        &&& self.depth[i] == self.depth[j] + 1
        &&& self.dist(j) <= self.dist(i) <= self.dist(j) + u64::MAX
        &&& self.graph.has_edge(
            self.nodes[j].node,
            self.nodes[i].node,
            (self.dist(i) - self.dist(j)) as u64,
        )
    }

    /// The node at position `i` has a predecessor among the discovered nodes.
    pub open spec fn has_support(self, i: int) -> bool {
        exists|j: int| self.supports(j, i)
    }

    /// The target of the edge number `k` out of the node at position `j` is
    /// discovered, and its distance is at most the distance through that edge.
    pub open spec fn covered(self, j: int, k: int) -> bool {
        let edge = self.graph.out(self.nodes[j].node)[k];
        exists|i: int|
            0 <= i < self.nodes.len() && (#[trigger] self.nodes[i]).node == edge.0 && self.dist(i)
                <= self.dist(j) + edge.1
    }

    /// No route from the source to the node at position `j` is cheaper than its distance.
    pub open spec fn is_lower_bound(self, j: int) -> bool {
        forall|route: Seq<usize>, weights: Seq<u64>| #[trigger]
            self.graph.is_route_between(self.source(), self.nodes[j].node, route, weights)
                ==> self.dist(j) <= total(weights)
    }

    /// What holds of the discovered nodes whatever has been relaxed.
    pub open spec fn shaped(self) -> bool {
        &&& self.graph.wf()
        &&& self.nodes.len() >= 1
        &&& self.depth.len() == self.nodes.len()
        &&& 0 <= self.last_updated < self.nodes.len()
        &&& self.nodes[self.last_updated].finalized
        &&& self.nodes[0].distance == Distance::Finite(0)
        &&& self.nodes[0].finalized
        &&& self.nodes[0].predecessor is None
        &&& self.depth[0] == 0
        &&& forall|i: int|
            0 <= i < self.nodes.len() ==> self.graph.has_node((#[trigger] self.nodes[i]).node)
        &&& forall|i: int, j: int|
            0 <= i < j < self.nodes.len() ==> (#[trigger] self.nodes[i]).node != (
            #[trigger] self.nodes[j]).node
        &&& forall|i: int|
            0 <= i < self.nodes.len() ==> (#[trigger] self.nodes[i]).distance is Finite
                && self.dist(i) <= distance_bound(self.nodes.len())
        &&& forall|i: int| 1 <= i < self.nodes.len() ==> #[trigger] self.has_support(i)
        &&& forall|i: int|
            0 <= i < self.nodes.len() && (#[trigger] self.nodes[i]).finalized ==> self.dist(i)
                <= self.dist(self.last_updated)
        &&& forall|i: int|
            0 <= i < self.nodes.len() && !(#[trigger] self.nodes[i]).finalized ==> self.dist(
                self.last_updated,
            ) <= self.dist(i)
    }

    /// The edges out of the finalized nodes are covered, but for those out
    /// of the node finalized last from number `m` on.
    pub open spec fn closed_up_to(self, m: int) -> bool {
        forall|j: int, k: int|
            0 <= j < self.nodes.len() && self.nodes[j].finalized && 0 <= k < self.graph.out(
                self.nodes[j].node,
            ).len() && (j != self.last_updated || k < m) ==> #[trigger] self.covered(j, k)
    }

    /// The distance of each finalized node is the weight of a cheapest route to it.
    pub open spec fn optimal(self) -> bool {
        forall|j: int|
            0 <= j < self.nodes.len() && (#[trigger] self.nodes[j]).finalized
                ==> self.is_lower_bound(j)
    }

    /// What holds while the edges out of the node finalized last are being
    /// relaxed, when those below number `m` have been.
    pub open spec fn inv_relaxing(self, m: int) -> bool {
        &&& self.shaped()
        &&& self.closed_up_to(m)
        &&& self.optimal()
    }

    /// What holds between two steps.
    pub open spec fn inv(self) -> bool {
        self.inv_relaxing(0)
    }

    /// Whether `later` continues this state: it keeps every record in its
    /// place, with its handle and its flag unless the node has been
    /// finalized since, leaves the record of a finalized node unchanged, and
    /// raises no distance.
    pub open spec fn continued_by(self, later: DijkstraState) -> bool {
        &&& later.graph == self.graph
        &&& later.end == self.end
        &&& later.nodes.len() >= self.nodes.len()
        &&& forall|i: int|
            0 <= i < self.nodes.len() ==> (#[trigger] later.nodes[i]).node == self.nodes[i].node
                && later.dist(i) <= self.dist(i) && (self.nodes[i].finalized ==> later.nodes[i]
                == self.nodes[i])
    }

    /// The number of edges out of the node finalized last.
    pub open spec fn degree(self) -> int {
        self.graph.out(self.nodes[self.last_updated].node).len() as int
    }

    /// The node at position `i` shows that a route to `to` of weight `cost`
    /// is no news: it is that node or a node that is not finalized yet, and
    /// its distance is at most `cost`.
    pub open spec fn meets(self, i: int, to: usize, cost: nat) -> bool {
        &&& 0 <= i < self.nodes.len()
        &&& self.nodes[i].node == to || !self.nodes[i].finalized
        &&& self.dist(i) <= cost
    }

    /// The target is discovered and its distance is final.
    pub open spec fn target_found(self) -> bool {
        exists|e: int|
            0 <= e < self.nodes.len() && (#[trigger] self.nodes[e]).node == self.end
                && self.nodes[e].finalized
    }

    /// Every discovered node is finalized and all their edges are covered:
    /// nothing is left to discover.
    pub open spec fn exhausted(self) -> bool {
        &&& self.closed_up_to(self.degree())
        &&& forall|i: int| 0 <= i < self.nodes.len() ==> (#[trigger] self.nodes[i]).finalized
    }

    /// The search has finished.
    pub open spec fn settled(self) -> bool {
        self.target_found() || self.exhausted()
    }

    /// An upper bound on the number of steps that do not finish the search:
    /// the number of nodes of the graph that are not finalized.
    pub open spec fn remaining(self) -> nat {
        (self.graph.len() - finalized_count(self.nodes)) as nat
    }

    /// The route to the node at position `i` that its predecessors describe.
    pub open spec fn path_to(self, i: int) -> Seq<usize>
        decreases self.depth[i],
    {
        match self.nodes[i].predecessor {
            Some(before) => match self.position(before) {
                Some(j) => if self.depth[j] < self.depth[i] {
                    self.path_to(j).push(self.nodes[i].node)
                } else {
                    seq![self.nodes[i].node]
                },
                None => seq![self.nodes[i].node],
            },
            None => seq![self.nodes[i].node],
        }
    }

    /// The weights of the edges of that route.
    pub open spec fn weights_to(self, i: int) -> Seq<u64>
        decreases self.depth[i],
    {
        match self.nodes[i].predecessor {
            Some(before) => match self.position(before) {
                Some(j) => if self.depth[j] < self.depth[i] {
                    self.weights_to(j).push((self.dist(i) - self.dist(j)) as u64)
                } else {
                    Seq::empty()
                },
                None => Seq::empty(),
            },
            None => Seq::empty(),
        }
    }

    /// The search finishes with the step number `n`, counted from 0, and not before.
    pub open spec fn finishes_in(self, n: nat) -> bool {
        &&& self.after(n).next_finishes()
        &&& forall|m: nat| m < n ==> !(#[trigger] self.after(m)).next_finishes()
    }

    /// The state in which the search finishes, when it finishes with step `n`.
    pub open spec fn finished_state(self, n: nat) -> DijkstraState {
        self.after(n).next()
    }

    /// What the search has found: the route to the target and its weight,
    /// or `None` where the target has not been discovered.
    pub open spec fn outcome(self) -> Option<(Seq<usize>, nat)> {
        match self.position(self.end) {
            Some(e) => Some((self.path_to(e), self.dist(e))),
            None => None,
        }
    }
}

} // verus!
