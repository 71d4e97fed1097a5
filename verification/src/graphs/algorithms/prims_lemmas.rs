use super::prims_state::{scanned_before, PrimState};
use crate::graphs::graph::{lemma_distinct_handles_fit, GraphView, NodeView};
use crate::graphs::routes::{lemma_reachable_finite, lemma_route_drop_last, lemma_route_push};
use vstd::set_lib::lemma_len_subset;
use crate::graphs::trees::{lemma_attach, lemma_edge_count_with_node, lemma_grown_is_tree};
use vstd::prelude::*;

verus! {

/// The state before the first step is as it has to be between steps.
pub proof fn lemma_initial(graph: GraphView, start: usize, target_nodes: usize)
    requires
        graph.wf(),
        graph.has_node(start),
    ensures
        PrimState::initial(graph, start, target_nodes).inv(),
{
    let s = PrimState::initial(graph, start, target_nodes);
    let first = NodeView { id: graph.nodes[start as int].id, edges: Seq::empty() };
    let nothing = GraphView { nodes: Seq::empty() };
    lemma_edge_count_with_node(nothing, first);
    assert(nothing.with_node(first).nodes =~= s.tree.nodes);
    assert(s.graph.is_route_between(start, start, seq![start], Seq::<u64>::empty()));
    assert forall|a: usize, b: usize| !s.tree.linked(a, b) by {}
    assert(s.tree.grown());
}

/// What identifies the edge to take next identifies it uniquely.
pub proof fn lemma_cheapest_crossing_is(s: PrimState, i: int, k: int)
    requires
        s.is_cheapest_crossing(i, k),
    ensures
        s.cheapest_crossing() == Some((i, k)),
{
    let c = choose|i: int, k: int| s.is_cheapest_crossing(i, k);
    assert(s.is_crossing(c.0, c.1));
    assert(s.is_crossing(i, k));
    assert(c.0 == i && c.1 == k);
    assert(c == (i, k));
}

/// The frontier holds different nodes of the graph, so no more than the graph has.
pub proof fn lemma_frontier_fits(s: PrimState)
    requires
        s.inv(),
    ensures
        s.visited.len() <= s.graph.len(),
        s.visited.len() <= usize::MAX + 1,
{
    let handles = Seq::new(s.visited.len(), |i: int| s.visited[i].0);
    assert forall|i: int, j: int| 0 <= i < j < handles.len() implies handles[i] != handles[j] by {
        assert(s.visited[i].0 != s.visited[j].0);
    }
    assert forall|i: int| 0 <= i < handles.len() implies handles[i] < s.graph.len() by {
        assert(s.graph.has_node(s.visited[i].0));
    }
    lemma_distinct_handles_fit(handles, s.graph.len());
}

/// Taking an edge that leaves the frontier keeps what holds between steps
/// and leaves one node less outside the frontier.
pub proof fn lemma_extend(s: PrimState, i: int, k: int)
    requires
        s.inv(),
        s.is_crossing(i, k),
        s.visited.len() != s.target_nodes,
    ensures
        s.extend(i, k).inv(),
        s.extend(i, k).graph == s.graph,
        s.extend(i, k).target_nodes == s.target_nodes,
        s.extend(i, k).start() == s.start(),
        s.extend(i, k).visited.len() == s.visited.len() + 1,
        s.visited.len() < s.graph.len(),
        s.visited.len() <= usize::MAX,
        s.extend(i, k).remaining() < s.remaining(),
{
    let t = s.extend(i, k);
    let from = s.visited[i].0;
    let target = s.edge(i, k).0;
    let n = s.visited.len() as int;
    assert(s.graph.has_node(from));
    assert(s.graph.has_node(s.graph.out(from)[k].0));
    assert(s.graph.has_edge(from, target, s.edge(i, k).1));
    assert(s.graph.linked(from, target));
    assert forall|x: int| 0 <= x < n implies (#[trigger] s.visited[x]).0 != target by {}
    let handles = Seq::new((n + 1) as nat, |x: int| t.visited[x].0);
    assert forall|x: int, y: int| 0 <= x < y < handles.len() implies handles[x] != handles[y] by {
        if y < n {
            assert(s.visited[x].0 != s.visited[y].0);
        } else {
            assert(s.visited[x].0 != target);
        }
    }
    assert forall|x: int| 0 <= x < handles.len() implies handles[x] < s.graph.len() by {
        if x < n {
            assert(s.graph.has_node(s.visited[x].0));
        }
    }
    lemma_distinct_handles_fit(handles, s.graph.len());
    lemma_attach(s.tree, s.graph.nodes[target as int].id, s.visited[i].1);
    assert(s.visited[i].1 == i);
    assert forall|x: int| 0 <= x < t.visited.len() implies s.graph.reachable(
        t.start(),
        (#[trigger] t.visited[x]).0,
    ) by {
        if x < n {
            assert(s.graph.reachable(s.start(), s.visited[x].0));
        } else {
            assert(s.graph.reachable(s.start(), s.visited[i].0));
            let (nodes, weights) = choose|nodes: Seq<usize>, weights: Seq<u64>|
                s.graph.is_route_between(s.start(), from, nodes, weights);
            lemma_route_push(s.graph, nodes, weights, target, s.edge(i, k).1);
            assert(s.graph.is_route_between(
                s.start(),
                target,
                nodes.push(target),
                weights.push(s.edge(i, k).1),
            ));
        }
    }
    assert forall|x: int| 0 <= x < t.visited.len() implies (#[trigger] t.tree.nodes[x]).id
        == t.graph.nodes[t.visited[x].0 as int].id by {
        if x < n {
            assert(s.tree.has_node(x as usize));
            assert(s.tree.nodes[x].id == s.graph.nodes[s.visited[x].0 as int].id);
        }
    }
    assert forall|a: usize, b: usize| #[trigger] t.tree.linked(a, b) implies t.tree.has_node(a)
        && t.tree.has_node(b) && (t.graph.linked(t.visited[a as int].0, t.visited[b as int].0)
        || t.graph.linked(t.visited[b as int].0, t.visited[a as int].0)) by {
        if s.tree.linked(a, b) {
            assert(s.tree.has_node(a) && s.tree.has_node(b));
        }
    }
}

/// Where no edge leaves the frontier, every route that starts in it ends in it.
pub proof fn lemma_route_stays(s: PrimState, nodes: Seq<usize>, weights: Seq<u64>)
    requires
        s.inv(),
        forall|i: int, k: int| !s.is_crossing(i, k),
        s.graph.is_route(nodes, weights),
        s.is_visited(nodes.first()),
    ensures
        s.is_visited(nodes.last()),
    decreases weights.len(),
{
    if weights.len() > 0 {
        lemma_route_drop_last(s.graph, nodes, weights);
        lemma_route_stays(s, nodes.drop_last(), weights.drop_last());
        let from = nodes[nodes.len() - 2];
        let i = choose|i: int| 0 <= i < s.visited.len() && (#[trigger] s.visited[i]).0 == from;
        let k = choose|k: int|
            0 <= k < s.graph.out(from).len() && #[trigger] s.graph.out(from)[k] == (
                nodes.last(),
                weights.last(),
            );
        assert(!s.is_crossing(i, k));
    }
}

/// Where no edge leaves the frontier, it holds every node that a route
/// leads to from the start.
pub proof fn lemma_exhausted_spans(s: PrimState)
    requires
        s.inv(),
        forall|i: int, k: int| !s.is_crossing(i, k),
    ensures
        s.spans(),
{
    assert forall|node: usize| #[trigger] s.graph.reachable(s.start(), node) implies s.is_visited(
        node,
    ) by {
        let (nodes, weights) = choose|nodes: Seq<usize>, weights: Seq<u64>|
            s.graph.is_route_between(s.start(), node, nodes, weights);
        assert(s.visited[0].0 == s.start());
        lemma_route_stays(s, nodes, weights);
    }
}

/// The frontier holds no more nodes than routes lead to from the start,
/// and as many where it holds them all.
pub proof fn lemma_frontier_count(s: PrimState)
    requires
        s.inv(),
    ensures
        s.graph.reachable_from(s.start()).finite(),
        s.visited.len() <= s.graph.reachable_from(s.start()).len(),
        s.spans() ==> s.visited.len() == s.graph.reachable_from(s.start()).len(),
{
    let reached = s.graph.reachable_from(s.start());
    let handles = Seq::new(s.visited.len(), |i: int| s.visited[i].0);
    assert forall|i: int, j: int|
        0 <= i < handles.len() && 0 <= j < handles.len() && i != j implies handles[i]
        != handles[j] by {
        if i < j {
            assert(s.visited[i].0 != s.visited[j].0);
        } else {
            assert(s.visited[j].0 != s.visited[i].0);
        }
    }
    handles.unique_seq_to_set();
    lemma_reachable_finite(s.graph, s.start());
    assert forall|node: usize| handles.to_set().contains(node) implies reached.contains(node) by {
        let i = choose|i: int| 0 <= i < handles.len() && handles[i] == node;
        assert(s.graph.reachable(s.start(), s.visited[i].0));
    }
    lemma_len_subset(handles.to_set(), reached);
    if s.spans() {
        assert forall|node: usize| reached.contains(node) implies handles.to_set().contains(
            node,
        ) by {
            assert(s.is_visited(node));
            let i = choose|i: int| 0 <= i < s.visited.len() && (#[trigger] s.visited[i]).0 == node;
            assert(handles[i] == node);
        }
        assert(handles.to_set() =~= reached);
    }
}

/// What the construction builds is an unweighted, undirected tree over the
/// frontier, one mirror for each visited node and with its label, whose
/// edges mirror edges of the graph. It has no more nodes than were asked
/// for, where any were, and fewer only when it holds every node that a
/// route leads to from the start.
pub proof fn lemma_result_is_spanning_tree(s: PrimState)
    requires
        s.inv(),
        s.settled(),
    ensures
        s.tree.is_tree(),
        s.tree.len() == s.visited.len(),
        s.tree.edge_count() == 2 * (s.visited.len() - 1),
        s.target_nodes >= 1 ==> s.tree.len() <= s.target_nodes,
        s.tree.len() != s.target_nodes ==> s.spans(),
        s.tree.len() <= s.graph.len(),
        s.target_nodes >= 1 ==> s.tree.len() == if s.target_nodes <= s.graph.reachable_from(
            s.start(),
        ).len() {
            s.target_nodes as nat
        } else {
            s.graph.reachable_from(s.start()).len()
        },
{
    lemma_grown_is_tree(s.tree);
    lemma_frontier_fits(s);
    lemma_frontier_count(s);
}

/// Among the edges looked at before the edge `k` of the frontier entry
/// `i`, one is the first of the cheapest that leave the frontier, or none
/// leaves it.
pub proof fn lemma_scan(s: PrimState, i: int, k: int) -> (best: Option<(int, int)>)
    requires
        0 <= i <= s.visited.len(),
        0 <= k,
        i < s.visited.len() ==> k <= s.graph.out(s.visited[i].0).len(),
        i == s.visited.len() ==> k == 0,
    ensures
        s.is_cheapest_so_far(best, i, k),
    decreases i, k,
{
    if k > 0 {
        let before = lemma_scan(s, i, k - 1);
        let better = s.is_crossing(i, k - 1) && match before {
            Some(b) => s.edge(i, k - 1).1 < s.edge(b.0, b.1).1,
            None => true,
        };
        let best = if better {
            Some((i, k - 1))
        } else {
            before
        };
        assert forall|i2: int, k2: int| scanned_before(i2, k2, i, k) implies scanned_before(
            i2,
            k2,
            i,
            k - 1,
        ) || (i2 == i && k2 == k - 1) by {}
        assert(s.is_cheapest_so_far(best, i, k));
        best
    } else if i > 0 {
        let degree = s.graph.out(s.visited[i - 1].0).len() as int;
        let before = lemma_scan(s, i - 1, degree);
        assert forall|i2: int, k2: int|
            s.is_crossing(i2, k2) && scanned_before(i2, k2, i, 0) implies scanned_before(
            i2,
            k2,
            i - 1,
            degree,
        ) by {}
        assert(s.is_cheapest_so_far(before, i, 0));
        before
    } else {
        None
    }
}

/// A step keeps what holds between steps and changes neither the graph
/// nor the start nor the wanted size. A step that finishes changes
/// nothing at all, and the construction has then reached what it was to
/// reach; any other step leaves one node less outside the frontier.
pub proof fn lemma_next(s: PrimState)
    requires
        s.inv(),
    ensures
        s.next().inv(),
        s.next().graph == s.graph,
        s.next().target_nodes == s.target_nodes,
        s.next().start() == s.start(),
        s.next_finishes() ==> s.next() == s && s.settled(),
        !s.next_finishes() ==> s.next().remaining() < s.remaining(),
{
    if s.visited.len() != s.target_nodes {
        let n = s.visited.len() as int;
        match lemma_scan(s, n, 0) {
            Some(b) => {
                assert forall|i2: int, k2: int| #[trigger]
                    s.is_crossing(i2, k2) implies scanned_before(i2, k2, n, 0) by {}
                assert(s.is_cheapest_crossing(b.0, b.1));
                lemma_cheapest_crossing_is(s, b.0, b.1);
                lemma_extend(s, b.0, b.1);
            },
            None => {
                assert forall|i2: int, k2: int| !s.is_crossing(i2, k2) by {
                    if s.is_crossing(i2, k2) {
                        assert(scanned_before(i2, k2, n, 0));
                    }
                }
                lemma_exhausted_spans(s);
            },
        }
    }
}

/// Steps keep what holds between steps, and change neither the graph nor
/// the start nor the wanted size.
pub proof fn lemma_steps_keep(s: PrimState, n: nat)
    requires
        s.inv(),
    ensures
        s.after(n).inv(),
        s.after(n).graph == s.graph,
        s.after(n).target_nodes == s.target_nodes,
        s.after(n).start() == s.start(),
    decreases n,
{
    if n > 0 {
        lemma_steps_keep(s, (n - 1) as nat);
        lemma_next(s.after((n - 1) as nat));
    }
}

} // verus!
