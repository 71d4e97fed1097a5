use super::graph::GraphView;
use vstd::prelude::*;
use vstd::set_lib::{lemma_int_range, lemma_set_subset_finite, set_int_range};

verus! {

/// The sum of the weights of a route.
pub open spec fn total(weights: Seq<u64>) -> nat
    decreases weights.len(),
{
    if weights.len() == 0 {
        0
    } else {
        total(weights.drop_last()) + weights.last() as nat
    }
}

impl GraphView {
    /// `nodes` is a route through the graph and `weights` are the weights of
    /// the edges it takes: the edge from `nodes[k]` to `nodes[k + 1]` has the
    /// weight `weights[k]`. A single node is a route without edges.
    pub open spec fn is_route(self, nodes: Seq<usize>, weights: Seq<u64>) -> bool {
        &&& nodes.len() == weights.len() + 1
        &&& forall|k: int| 0 <= k < nodes.len() ==> self.has_node(#[trigger] nodes[k])
        &&& forall|k: int|
            0 <= k < weights.len() ==> self.has_edge(nodes[k], nodes[k + 1], #[trigger] weights[k])
    }

    /// A route that leads from `from` to `to`.
    pub open spec fn is_route_between(
        self,
        from: usize,
        to: usize,
        nodes: Seq<usize>,
        weights: Seq<u64>,
    ) -> bool {
        &&& self.is_route(nodes, weights)
        &&& nodes.first() == from
        &&& nodes.last() == to
    }

    /// Some route leads from `from` to `to`.
    pub open spec fn reachable(self, from: usize, to: usize) -> bool {
        exists|nodes: Seq<usize>, weights: Seq<u64>|
            self.is_route_between(from, to, nodes, weights)
    }

    /// The nodes that a route leads to from `from`.
    pub open spec fn reachable_from(self, from: usize) -> Set<usize> {
        Set::new(|to: usize| self.reachable(from, to))
    }

    /// `nodes` with `weights` is a cheapest route from `from` to `to`.
    pub open spec fn is_cheapest_route(
        self,
        from: usize,
        to: usize,
        nodes: Seq<usize>,
        weights: Seq<u64>,
    ) -> bool {
        &&& self.is_route_between(from, to, nodes, weights)
        &&& forall|other: Seq<usize>, other_weights: Seq<u64>|
            self.is_route_between(from, to, other, other_weights) ==> total(weights) <= total(
                other_weights,
            )
    }
}

/// A route without its last edge is a route to the node before the last.
pub proof fn lemma_route_drop_last(g: GraphView, nodes: Seq<usize>, weights: Seq<u64>)
    requires
        g.is_route(nodes, weights),
        weights.len() > 0,
    ensures
        g.is_route(nodes.drop_last(), weights.drop_last()),
        nodes.drop_last().first() == nodes.first(),
        nodes.drop_last().last() == nodes[nodes.len() - 2],
        g.has_edge(nodes[nodes.len() - 2], nodes.last(), weights.last()),
        total(weights) == total(weights.drop_last()) + weights.last(),
{
    let n = nodes.drop_last();
    let w = weights.drop_last();
    assert forall|k: int| 0 <= k < n.len() implies g.has_node(#[trigger] n[k]) by {
        assert(n[k] == nodes[k]);
    }
    assert forall|k: int| 0 <= k < w.len() implies g.has_edge(n[k], n[k + 1], #[trigger] w[k]) by {
        assert(w[k] == weights[k]);
        assert(n[k] == nodes[k]);
        assert(n[k + 1] == nodes[k + 1]);
    }
    assert(weights[weights.len() - 1] == weights.last());
}

/// A route with one more edge at its end is a route to the target of that edge.
pub proof fn lemma_route_push(
    g: GraphView,
    nodes: Seq<usize>,
    weights: Seq<u64>,
    to: usize,
    w: u64,
)
    requires
        g.wf(),
        g.is_route(nodes, weights),
        g.has_edge(nodes.last(), to, w),
    ensures
        g.is_route(nodes.push(to), weights.push(w)),
        nodes.push(to).first() == nodes.first(),
        nodes.push(to).last() == to,
        total(weights.push(w)) == total(weights) + w,
{
    let n = nodes.push(to);
    let ws = weights.push(w);
    let k0 = choose|k: int|
        0 <= k < g.out(nodes.last()).len() && #[trigger] g.out(nodes.last())[k] == (to, w);
    assert(g.has_node(g.out(nodes.last())[k0].0));
    assert forall|k: int| 0 <= k < n.len() implies g.has_node(#[trigger] n[k]) by {
        if k < nodes.len() {
            assert(n[k] == nodes[k]);
        }
    }
    assert forall|k: int| 0 <= k < ws.len() implies g.has_edge(n[k], n[k + 1], #[trigger] ws[k]) by {
        if k < weights.len() {
            assert(ws[k] == weights[k]);
            assert(n[k] == nodes[k]);
            assert(n[k + 1] == nodes[k + 1]);
        }
    }
    assert(ws.drop_last() =~= weights);
}

/// Routes lead to finitely many nodes.
pub proof fn lemma_reachable_finite(g: GraphView, from: usize)
    ensures
        g.reachable_from(from).finite(),
{
    let bound: int = if g.len() <= usize::MAX + 1 {
        g.len() as int
    } else {
        usize::MAX + 1
    };
    let numbers = set_int_range(0, bound);
    let handles = numbers.map(|i: int| i as usize);
    lemma_int_range(0, bound);
    numbers.lemma_map_finite(|i: int| i as usize);
    assert forall|to: usize| g.reachable_from(from).contains(to) implies handles.contains(to) by {
        let (nodes, weights) = choose|nodes: Seq<usize>, weights: Seq<u64>|
            g.is_route_between(from, to, nodes, weights);
        assert(g.has_node(nodes[nodes.len() - 1]));
        assert(numbers.contains(to as int));
        assert((to as int) as usize == to);
    }
    lemma_set_subset_finite(handles, g.reachable_from(from));
}

} // verus!
