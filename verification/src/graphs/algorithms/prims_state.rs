use crate::graphs::graph::{GraphView, NodeView};
use vstd::prelude::*;

verus! {

/// Whether the edge number `k2` of the frontier entry `i2` is looked at
/// before the edge number `k` of the entry `i`.
pub open spec fn scanned_before(i2: int, k2: int, i: int, k: int) -> bool {
    i2 < i || (i2 == i && k2 < k)
}

/// The state of the construction of a spanning tree: the graph, the
/// frontier of visited nodes, each with the handle of its mirror in the
/// tree, in the order of their discovery, the tree built so far, and the
/// number of nodes at which the construction stops.
pub struct PrimState {
    pub graph: GraphView,
    pub visited: Seq<(usize, usize)>,
    pub tree: GraphView,
    pub target_nodes: usize,
}

impl PrimState {
    /// The state before the first step: the frontier holds the start node,
    /// and the tree its mirror, which has the same label and no edges.
    pub open spec fn initial(graph: GraphView, start: usize, target_nodes: usize) -> PrimState {
        PrimState {
            graph,
            visited: seq![(start, 0usize)],
            tree: GraphView {
                nodes: seq![NodeView { id: graph.nodes[start as int].id, edges: Seq::empty() }],
            },
            target_nodes,
        }
    }

    /// The node that the construction started from.
    pub open spec fn start(self) -> usize {
        self.visited[0].0
    }

    /// Whether the node `node` of the graph is in the frontier.
    pub open spec fn is_visited(self, node: usize) -> bool {
        exists|i: int| 0 <= i < self.visited.len() && (#[trigger] self.visited[i]).0 == node
    }

    /// The edge number `k` out of the frontier entry `i`.
    pub open spec fn edge(self, i: int, k: int) -> (usize, u64) {
        self.graph.out(self.visited[i].0)[k]
    }

    /// Whether the edge number `k` out of the frontier entry `i` leaves the frontier.
    pub open spec fn is_crossing(self, i: int, k: int) -> bool {
        &&& 0 <= i < self.visited.len()
        &&& 0 <= k < self.graph.out(self.visited[i].0).len()
        &&& !self.is_visited(self.edge(i, k).0)
    }

    /// Whether `best` is the first of the cheapest edges that leave the
    /// frontier, among the edges looked at before the edge `k` of entry `i`.
    pub open spec fn is_cheapest_so_far(self, best: Option<(int, int)>, i: int, k: int) -> bool {
        match best {
            Some(b) => {
                &&& self.is_crossing(b.0, b.1)
                &&& scanned_before(b.0, b.1, i, k)
                &&& forall|i2: int, k2: int| #[trigger]
                    self.is_crossing(i2, k2) && scanned_before(i2, k2, i, k) ==> self.edge(
                        b.0,
                        b.1,
                    ).1 <= self.edge(i2, k2).1 && (scanned_before(i2, k2, b.0, b.1) ==> self.edge(
                        b.0,
                        b.1,
                    ).1 < self.edge(i2, k2).1)
            },
            None => forall|i2: int, k2: int|
                scanned_before(i2, k2, i, k) ==> !#[trigger] self.is_crossing(i2, k2),
        }
    }

    /// Whether the edge `k` of the frontier entry `i` is the one to take
    /// next: it leaves the frontier, no such edge is cheaper, and those of
    /// the same weight come after it.
    pub open spec fn is_cheapest_crossing(self, i: int, k: int) -> bool {
        &&& self.is_crossing(i, k)
        &&& forall|i2: int, k2: int| #[trigger]
            self.is_crossing(i2, k2) ==> self.edge(i, k).1 <= self.edge(i2, k2).1 && (
            scanned_before(i2, k2, i, k) ==> self.edge(i, k).1 < self.edge(i2, k2).1)
    }

    /// The edge to take next, if any edge leaves the frontier.
    pub open spec fn cheapest_crossing(self) -> Option<(int, int)> {
        if exists|i: int, k: int| self.is_cheapest_crossing(i, k) {
            Some(choose|i: int, k: int| self.is_cheapest_crossing(i, k))
        } else {
            None
        }
    }

    /// The state after the edge `k` of the frontier entry `i` has been
    /// taken: its target joins the frontier, and a mirror with the label of
    /// the target is attached to the mirror of the entry.
    pub open spec fn extend(self, i: int, k: int) -> PrimState {
        let target = self.edge(i, k).0;
        PrimState {
            visited: self.visited.push((target, self.tree.len() as usize)),
            tree: self.tree.attach(self.graph.nodes[target as int].id, self.visited[i].1),
            ..self
        }
    }

    /// The state after one step.
    pub open spec fn next(self) -> PrimState {
        if self.visited.len() == self.target_nodes {
            self
        } else {
            match self.cheapest_crossing() {
                Some(b) => self.extend(b.0, b.1),
                None => self,
            }
        }
    }

    /// Whether the step from this state reports that the construction has
    /// finished: the frontier has the wanted size, or no edge leaves it.
    pub open spec fn next_finishes(self) -> bool {
        self.visited.len() == self.target_nodes || self.cheapest_crossing() is None
    }

    /// The state after `n` steps.
    pub open spec fn after(self, n: nat) -> PrimState
        decreases n,
    {
        if n == 0 {
            self
        } else {
            self.after((n - 1) as nat).next()
        }
    }

    /// The construction finishes with the step number `n`, counted from 0, and not before.
    pub open spec fn finishes_in(self, n: nat) -> bool {
        &&& self.after(n).next_finishes()
        &&& forall|m: nat| m < n ==> !(#[trigger] self.after(m)).next_finishes()
    }

    /// The state in which the construction finishes, when it finishes with step `n`.
    pub open spec fn finished_state(self, n: nat) -> PrimState {
        self.after(n).next()
    }

    /// Every node that a route leads to from the start is in the frontier.
    pub open spec fn spans(self) -> bool {
        forall|node: usize| #[trigger]
            self.graph.reachable(self.start(), node) ==> self.is_visited(node)
    }

    /// What the construction has reached when it has finished: the wanted
    /// number of nodes, or every node that can be reached.
    pub open spec fn settled(self) -> bool {
        self.visited.len() == self.target_nodes || self.spans()
    }

    /// An upper bound on the number of steps that do not finish the
    /// construction: the number of nodes that are not in the frontier.
    pub open spec fn remaining(self) -> nat {
        (self.graph.len() - self.visited.len()) as nat
    }

    /// What holds between two steps.
    pub open spec fn inv(self) -> bool {
        &&& self.graph.wf()
        &&& self.visited.len() >= 1
        &&& self.tree.len() == self.visited.len()
        &&& self.target_nodes == 0 || self.visited.len() <= self.target_nodes
        &&& forall|i: int|
            0 <= i < self.visited.len() ==> self.graph.has_node((#[trigger] self.visited[i]).0)
                && self.visited[i].1 == i
        &&& forall|i: int, j: int|
            0 <= i < j < self.visited.len() ==> (#[trigger] self.visited[i]).0 != (
            #[trigger] self.visited[j]).0
        &&& forall|i: int|
            0 <= i < self.visited.len() ==> (#[trigger] self.tree.nodes[i]).id
                == self.graph.nodes[self.visited[i].0 as int].id
        &&& self.tree.grown()
        &&& forall|i: int|
            0 <= i < self.visited.len() ==> self.graph.reachable(
                self.start(),
                (#[trigger] self.visited[i]).0,
            )
        &&& forall|a: usize, b: usize| #[trigger]
            self.tree.linked(a, b) ==> self.tree.has_node(a) && self.tree.has_node(b) && (
            self.graph.linked(self.visited[a as int].0, self.visited[b as int].0)
                || self.graph.linked(self.visited[b as int].0, self.visited[a as int].0))
    }
}

} // verus!
