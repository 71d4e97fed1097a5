use super::graph::{
    lemma_with_directed_edge_links, lemma_with_directed_edge_out, lemma_with_directed_edge_simple,
    lemma_with_directed_edge_wf, lemma_with_node, GraphView, NodeView,
};
use super::routes::{lemma_route_drop_last, lemma_route_push};
use vstd::prelude::*;

verus! {

impl GraphView {
    /// The number of edges, each direction counted.
    pub open spec fn edge_count(self) -> nat
        decreases self.nodes.len(),
    {
        if self.nodes.len() == 0 {
            0
        } else {
            (GraphView { nodes: self.nodes.drop_last() }).edge_count()
                + self.nodes.last().edges.len()
        }
    }

    /// Every edge has the weight 0.
    pub open spec fn unweighted(self) -> bool {
        forall|a: usize, k: int|
            self.has_node(a) && 0 <= k < self.out(a).len() ==> (#[trigger] self.out(a)[k]).1 == 0
    }

    /// Every edge has an edge back.
    pub open spec fn symmetric(self) -> bool {
        forall|a: usize, k: int|
            self.has_node(a) && 0 <= k < self.out(a).len() ==> self.linked(
                (#[trigger] self.out(a)[k]).0,
                a,
            )
    }

    /// A route leads from every node to every other.
    pub open spec fn connected(self) -> bool {
        forall|a: usize, b: usize|
            self.has_node(a) && self.has_node(b) ==> #[trigger] self.reachable(a, b)
    }

    /// `cycle` is a round trip over three or more different nodes, each
    /// linked to the next and the last to the first.
    pub open spec fn is_cycle(self, cycle: Seq<usize>) -> bool {
        &&& cycle.len() >= 3
        &&& forall|s: int, t: int| 0 <= s < t < cycle.len() ==> cycle[s] != cycle[t]
        &&& forall|t: int| 0 <= t < cycle.len() ==> self.has_node(#[trigger] cycle[t])
        &&& forall|t: int|
            0 <= t < cycle.len() - 1 ==> self.linked(#[trigger] cycle[t], cycle[t + 1])
        &&& self.linked(cycle.last(), cycle.first())
    }

    /// There is no round trip.
    pub open spec fn acyclic(self) -> bool {
        forall|cycle: Seq<usize>| !self.is_cycle(cycle)
    }

    /// The graph is an undirected, unweighted tree: connected, without a
    /// round trip, with one edge in each direction for every node but one.
    pub open spec fn is_tree(self) -> bool {
        &&& self.len() >= 1
        &&& self.wf()
        &&& self.simple()
        &&& self.unweighted()
        &&& self.symmetric()
        &&& self.connected()
        &&& self.acyclic()
        &&& self.edge_count() == 2 * (self.len() - 1)
    }

    /// The graph has grown from its first node by attaching each later node
    /// to one that was there, its parent, with an unweighted edge in each
    /// direction: the first edge of a later node leads to its parent, and
    /// every other edge leads to a node attached later.
    pub open spec fn grown(self) -> bool {
        &&& self.len() >= 1
        &&& self.wf()
        &&& self.simple()
        &&& self.unweighted()
        &&& self.symmetric()
        &&& forall|a: usize|
            self.has_node(a) && a >= 1 ==> (#[trigger] self.out(a)).len() >= 1 && self.out(a)[0].0
                < a
        &&& forall|a: usize, k: int|
            self.has_node(a) && 0 <= k < self.out(a).len() && (a == 0 || k >= 1) ==> (
            #[trigger] self.out(a)[k]).0 > a
        &&& self.edge_count() == 2 * (self.len() - 1)
    }

    /// The graph with one more node, attached to `parent`.
    pub open spec fn attach(self, id: Option<usize>, parent: usize) -> GraphView {
        self.with_node(NodeView { id, edges: Seq::empty() }).with_undirected_edge(
            self.len() as usize,
            parent,
            0,
        )
    }
}

/// A node without edges adds nothing to the number of edges.
pub proof fn lemma_edge_count_with_node(g: GraphView, node: NodeView)
    requires
        node.edges.len() == 0,
    ensures
        g.with_node(node).edge_count() == g.edge_count(),
{
    assert(g.with_node(node).nodes.drop_last() =~= g.nodes);
}

/// An inserted edge adds one to the number of edges.
pub proof fn lemma_edge_count_with_directed_edge(g: GraphView, a: usize, b: usize, w: u64)
    requires
        g.has_node(a),
    ensures
        g.with_directed_edge(a, b, w).edge_count() == g.edge_count() + 1,
    decreases g.nodes.len(),
{
    let h = g.with_directed_edge(a, b, w);
    let shorter = GraphView { nodes: g.nodes.drop_last() };
    if a == g.nodes.len() - 1 {
        assert(h.nodes.drop_last() =~= g.nodes.drop_last());
    } else {
        lemma_edge_count_with_directed_edge(shorter, a, b, w);
        assert(h.nodes.drop_last() =~= shorter.with_directed_edge(a, b, w).nodes);
    }
}

/// Attaching a node to a grown graph gives a grown graph.
pub proof fn lemma_attach(g: GraphView, id: Option<usize>, parent: usize)
    requires
        g.grown(),
        g.has_node(parent),
        g.len() <= usize::MAX,
    ensures
        g.attach(id, parent).grown(),
        g.attach(id, parent).len() == g.len() + 1,
        forall|a: usize| g.has_node(a) ==> g.attach(id, parent).nodes[a as int].id == g.nodes[a as int].id,
        g.attach(id, parent).nodes[g.len() as int].id == id,
        forall|a: usize, b: usize|
            g.attach(id, parent).linked(a, b) <==> g.linked(a, b) || (a == g.len() && b == parent)
                || (a == parent && b == g.len()),
{
    let fresh = g.len() as usize;
    let node = NodeView { id, edges: Seq::empty() };
    let g1 = g.with_node(node);
    let g2 = g1.with_directed_edge(fresh, parent, 0);
    let g3 = g2.with_directed_edge(parent, fresh, 0);
    assert(g3 == g.attach(id, parent));
    lemma_with_node(g, node);
    lemma_edge_count_with_node(g, node);
    lemma_with_directed_edge_wf(g1, fresh, parent, 0);
    lemma_with_directed_edge_wf(g2, parent, fresh, 0);
    lemma_edge_count_with_directed_edge(g1, fresh, parent, 0);
    lemma_edge_count_with_directed_edge(g2, parent, fresh, 0);
    assert(g1.out(fresh) =~= Seq::<(usize, u64)>::empty());
    assert(!g1.linked(fresh, parent));
    lemma_with_directed_edge_simple(g1, fresh, parent, 0);
    assert(!g1.linked(parent, fresh)) by {
        if g1.linked(parent, fresh) {
            let k = choose|k: int|
                0 <= k < g1.out(parent).len() && (#[trigger] g1.out(parent)[k]).0 == fresh;
            assert(g.has_node(g.out(parent)[k].0));
        }
    }
    lemma_with_directed_edge_links(g1, fresh, parent, 0, parent, fresh);
    lemma_with_directed_edge_simple(g2, parent, fresh, 0);
    assert forall|a: usize| g3.has_node(a) implies g3.out(a) == if a == fresh {
        seq![(parent, 0u64)]
    } else if a == parent {
        g.out(a).push((fresh, 0u64))
    } else {
        g.out(a)
    } by {
        lemma_with_directed_edge_out(g1, fresh, parent, 0, a);
        lemma_with_directed_edge_out(g2, parent, fresh, 0, a);
        if a == fresh {
            assert(g3.out(a) =~= seq![(parent, 0u64)]);
        }
    }
    assert forall|a: usize, b: usize|
        g3.linked(a, b) <==> g.linked(a, b) || (a == g.len() && b == parent) || (a == parent && b
            == g.len()) by {
        lemma_with_directed_edge_links(g1, fresh, parent, 0, a, b);
        lemma_with_directed_edge_links(g2, parent, fresh, 0, a, b);
        if g1.linked(a, b) {
            let k = choose|k: int| 0 <= k < g1.out(a).len() && (#[trigger] g1.out(a)[k]).0 == b;
            assert(a != fresh);
            assert(g.out(a)[k].0 == b);
        }
        if g.linked(a, b) {
            let k = choose|k: int| 0 <= k < g.out(a).len() && (#[trigger] g.out(a)[k]).0 == b;
            assert(g1.out(a)[k].0 == b);
        }
    }
    assert forall|a: usize, k: int| g3.has_node(a) && 0 <= k < g3.out(a).len() implies (
    #[trigger] g3.out(a)[k]).1 == 0 by {
        if a != fresh && k < g.out(a).len() {
            assert(g.out(a)[k].1 == 0);
        }
    }
    assert forall|a: usize, k: int| g3.has_node(a) && 0 <= k < g3.out(a).len() implies g3.linked(
        (#[trigger] g3.out(a)[k]).0,
        a,
    ) by {
        if a != fresh && k < g.out(a).len() {
            assert(g.linked(g.out(a)[k].0, a));
        }
    }
    assert forall|a: usize| g3.has_node(a) && a >= 1 implies (#[trigger] g3.out(a)).len() >= 1
        && g3.out(a)[0].0 < a by {
        if a != fresh {
            assert(g.out(a).len() >= 1);
        }
    }
    assert forall|a: usize, k: int|
        g3.has_node(a) && 0 <= k < g3.out(a).len() && (a == 0 || k >= 1) implies (
    #[trigger] g3.out(a)[k]).0 > a by {
        if a != fresh && k < g.out(a).len() {
            assert(g.out(a)[k].0 > a);
        }
        if a == parent && k == g.out(a).len() && a >= 1 {
            assert(g.out(a).len() >= 1);
        }
    }
}

/// In a grown graph a route leads from the first node to every node, and back.
pub proof fn lemma_grown_reaches(g: GraphView, a: usize)
    requires
        g.grown(),
        g.has_node(a),
    ensures
        g.reachable(0, a),
        g.reachable(a, 0),
    decreases a,
{
    if a == 0 {
        assert(g.is_route_between(0, 0, seq![0usize], Seq::<u64>::empty()));
    } else {
        assert(g.out(a).len() >= 1);
        let parent = g.out(a)[0].0;
        assert(g.has_node(parent));
        lemma_grown_reaches(g, parent);
        assert(g.has_edge(a, parent, 0)) by {
            assert(g.out(a)[0] == (parent, 0u64));
        }
        assert(g.linked(parent, a));
        let k = choose|k: int|
            0 <= k < g.out(parent).len() && (#[trigger] g.out(parent)[k]).0 == a;
        assert(g.has_edge(parent, a, 0)) by {
            assert(g.out(parent)[k] == (a, 0u64));
        }
        let (down, down_weights) = choose|nodes: Seq<usize>, weights: Seq<u64>|
            g.is_route_between(0, parent, nodes, weights);
        lemma_route_push(g, down, down_weights, a, 0);
        assert(g.is_route_between(0, a, down.push(a), down_weights.push(0)));
        assert(g.is_route_between(a, a, seq![a], Seq::<u64>::empty()));
        lemma_route_push(g, seq![a], Seq::<u64>::empty(), parent, 0);
        assert(g.is_route_between(a, parent, seq![a].push(parent), Seq::<u64>::empty().push(0)));
        lemma_reachable_trans(g, a, parent, 0);
    }
}

/// Where a route leads from `a` to `b` and one from `b` to `c`, one leads from `a` to `c`.
pub proof fn lemma_reachable_trans(g: GraphView, a: usize, b: usize, c: usize)
    requires
        g.wf(),
        g.reachable(a, b),
        g.reachable(b, c),
    ensures
        g.reachable(a, c),
{
    let (nodes, weights) = choose|nodes: Seq<usize>, weights: Seq<u64>|
        g.is_route_between(b, c, nodes, weights);
    lemma_reachable_along(g, a, nodes, weights);
}

/// Where a route leads from `a` to the start of a second route, one leads
/// from `a` to the end of the second.
pub proof fn lemma_reachable_along(g: GraphView, a: usize, nodes: Seq<usize>, weights: Seq<u64>)
    requires
        g.wf(),
        g.is_route(nodes, weights),
        g.reachable(a, nodes.first()),
    ensures
        g.reachable(a, nodes.last()),
    decreases weights.len(),
{
    if weights.len() > 0 {
        lemma_route_drop_last(g, nodes, weights);
        lemma_reachable_along(g, a, nodes.drop_last(), weights.drop_last());
        let middle = nodes[nodes.len() - 2];
        let (first, first_weights) = choose|first: Seq<usize>, first_weights: Seq<u64>|
            g.is_route_between(a, middle, first, first_weights);
        lemma_route_push(g, first, first_weights, nodes.last(), weights.last());
        assert(g.is_route_between(
            a,
            nodes.last(),
            first.push(nodes.last()),
            first_weights.push(weights.last()),
        ));
    }
}

/// A position of a greatest member of a sequence that is not empty.
pub proof fn lemma_greatest(items: Seq<usize>) -> (m: int)
    requires
        items.len() > 0,
    ensures
        0 <= m < items.len(),
        forall|t: int| 0 <= t < items.len() ==> items[t] <= items[m],
    decreases items.len(),
{
    if items.len() == 1 {
        0
    } else {
        let m = lemma_greatest(items.drop_last());
        assert forall|t: int| 0 <= t < items.len() - 1 implies items[t] <= items[m] by {
            assert(items.drop_last()[t] == items[t]);
        }
        assert(items.drop_last()[m] == items[m]);
        if items.last() > items[m] {
            items.len() - 1
        } else {
            m
        }
    }
}

/// In a grown graph a node is linked to its parent and to nodes attached
/// later, so the only smaller node that it is linked with is its parent.
pub proof fn lemma_grown_smaller_neighbour(g: GraphView, a: usize, b: usize)
    requires
        g.grown(),
        g.has_node(a),
        g.linked(a, b) || g.linked(b, a),
        b < a,
    ensures
        b == g.out(a)[0].0,
{
    if !g.linked(a, b) {
        let k = choose|k: int| 0 <= k < g.out(b).len() && (#[trigger] g.out(b)[k]).0 == a;
        assert(g.linked(g.out(b)[k].0, b));
    }
    let k = choose|k: int| 0 <= k < g.out(a).len() && (#[trigger] g.out(a)[k]).0 == b;
    if a == 0 || k >= 1 {
        assert(g.out(a)[k].0 > a);
    }
}

/// A grown graph is a tree.
pub proof fn lemma_grown_is_tree(g: GraphView)
    requires
        g.grown(),
    ensures
        g.is_tree(),
{
    assert forall|a: usize, b: usize| g.has_node(a) && g.has_node(b) implies #[trigger] g.reachable(
        a,
        b,
    ) by {
        lemma_grown_reaches(g, a);
        lemma_grown_reaches(g, b);
        lemma_reachable_trans(g, a, 0, b);
    }
    assert forall|cycle: Seq<usize>| !g.is_cycle(cycle) by {
        if g.is_cycle(cycle) {
            let n = cycle.len() as int;
            let m = lemma_greatest(cycle);
            let after = if m == n - 1 {
                0
            } else {
                m + 1
            };
            let before = if m == 0 {
                n - 1
            } else {
                m - 1
            };
            let top = cycle[m];
            assert(g.has_node(top));
            assert(g.linked(top, cycle[after])) by {
                if m < n - 1 {
                    assert(g.linked(cycle[m], cycle[m + 1]));
                }
            }
            assert(g.linked(cycle[before], top)) by {
                if m > 0 {
                    assert(g.linked(cycle[m - 1], cycle[m - 1 + 1]));
                }
            }
            assert(cycle[after] != top) by {
                if after < m {
                    assert(cycle[after] != cycle[m]);
                } else {
                    assert(cycle[m] != cycle[after]);
                }
            }
            assert(cycle[before] != top) by {
                if before < m {
                    assert(cycle[before] != cycle[m]);
                } else {
                    assert(cycle[m] != cycle[before]);
                }
            }
            lemma_grown_smaller_neighbour(g, top, cycle[after]);
            lemma_grown_smaller_neighbour(g, top, cycle[before]);
            if before < after {
                assert(cycle[before] != cycle[after]);
            } else {
                assert(cycle[after] != cycle[before]);
            }
        }
    }
}

} // verus!
