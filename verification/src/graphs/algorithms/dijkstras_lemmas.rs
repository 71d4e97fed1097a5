use super::dijkstras_state::{
    distance_bound, finalized_count, DijkstraState, Distance, WorkingNode,
};
use crate::graphs::graph::{lemma_distinct_handles_fit, GraphView};
use crate::graphs::routes::{lemma_route_drop_last, lemma_route_push, total};
use vstd::prelude::*;

verus! {

/// What identifies the position of a discovered node identifies it uniquely.
pub proof fn lemma_position_is(s: DijkstraState, node: usize, i: int)
    requires
        s.is_position(node, i),
    ensures
        s.position(node) == Some(i),
{
    let c = choose|c: int| s.is_position(node, c);
    if c < i {
        assert(s.nodes[c].node != node);
    }
    if i < c {
        assert(s.nodes[i].node != node);
    }
}

/// Where no handle occurs twice, a discovered node is found at its position.
pub proof fn lemma_position_found(s: DijkstraState, i: int)
    requires
        s.shaped(),
        0 <= i < s.nodes.len(),
    ensures
        s.position(s.nodes[i].node) == Some(i),
{
    assert(s.is_position(s.nodes[i].node, i));
    lemma_position_is(s, s.nodes[i].node, i);
}

/// A node without a position has not been discovered.
pub proof fn lemma_position_none(s: DijkstraState, node: usize)
    requires
        s.shaped(),
        s.position(node) is None,
    ensures
        forall|i: int| 0 <= i < s.nodes.len() ==> (#[trigger] s.nodes[i]).node != node,
{
    assert forall|i: int| 0 <= i < s.nodes.len() implies (#[trigger] s.nodes[i]).node != node by {
        if s.nodes[i].node == node {
            lemma_position_found(s, i);
        }
    }
}

/// Appending a node adds it to the count if it is finalized.
pub proof fn lemma_count_push(nodes: Seq<WorkingNode>, node: WorkingNode)
    ensures
        finalized_count(nodes.push(node)) == finalized_count(nodes) + if node.finalized {
            1nat
        } else {
            0nat
        },
{
    assert(nodes.push(node).drop_last() =~= nodes);
}

/// Replacing a node changes the count by the difference of the two flags.
pub proof fn lemma_count_update(nodes: Seq<WorkingNode>, i: int, node: WorkingNode)
    requires
        0 <= i < nodes.len(),
    ensures
        finalized_count(nodes.update(i, node)) + (if nodes[i].finalized {
            1nat
        } else {
            0nat
        }) == finalized_count(nodes) + if node.finalized {
            1nat
        } else {
            0nat
        },
    decreases nodes.len(),
{
    let updated = nodes.update(i, node);
    if i == nodes.len() - 1 {
        assert(updated.drop_last() =~= nodes.drop_last());
    } else {
        lemma_count_update(nodes.drop_last(), i, node);
        assert(updated.drop_last() =~= nodes.drop_last().update(i, node));
    }
}

/// No more nodes are finalized than are discovered.
pub proof fn lemma_count_le(nodes: Seq<WorkingNode>)
    ensures
        finalized_count(nodes) <= nodes.len(),
    decreases nodes.len(),
{
    if nodes.len() > 0 {
        lemma_count_le(nodes.drop_last());
    }
}

/// The discovered nodes are distinct nodes of the graph, so there are no
/// more of them than the graph has nodes, or than there are handles.
pub proof fn lemma_discovered_fit(s: DijkstraState)
    requires
        s.shaped(),
    ensures
        s.nodes.len() <= s.graph.len(),
        s.nodes.len() <= usize::MAX + 1,
        finalized_count(s.nodes) <= s.graph.len(),
{
    let handles = Seq::new(s.nodes.len(), |i: int| s.nodes[i].node);
    assert forall|i: int, j: int| 0 <= i < j < handles.len() implies handles[i] != handles[j] by {
        assert(s.nodes[i].node != s.nodes[j].node);
    }
    assert forall|i: int| 0 <= i < handles.len() implies handles[i] < s.graph.len() by {
        assert(s.graph.has_node(s.nodes[i].node));
    }
    lemma_distinct_handles_fit(handles, s.graph.len());
    lemma_count_le(s.nodes);
}

/// Closure and optimality survive a change of the discovered nodes that
/// leaves the finalized nodes alone, keeps the handle and the flag of every
/// node, and raises no distance.
pub proof fn lemma_persist(s: DijkstraState, t: DijkstraState, m: int)
    requires
        s.closed_up_to(m),
        s.optimal(),
        t.graph == s.graph,
        t.last_updated == s.last_updated,
        s.nodes.len() >= 1,
        t.nodes.len() >= s.nodes.len(),
        forall|i: int|
            0 <= i < s.nodes.len() ==> (#[trigger] t.nodes[i]).node == s.nodes[i].node
                && t.nodes[i].finalized == s.nodes[i].finalized && t.dist(i) <= s.dist(i) && (
            s.nodes[i].finalized ==> t.dist(i) == s.dist(i)),
        forall|i: int| s.nodes.len() <= i < t.nodes.len() ==> !(#[trigger] t.nodes[i]).finalized,
    ensures
        t.closed_up_to(m),
        t.optimal(),
{
    assert forall|j: int, k: int|
        0 <= j < t.nodes.len() && t.nodes[j].finalized && 0 <= k < t.graph.out(
            t.nodes[j].node,
        ).len() && (j != t.last_updated || k < m) implies #[trigger] t.covered(j, k) by {
        assert(j < s.nodes.len());
        assert(s.covered(j, k));
        let edge = s.graph.out(s.nodes[j].node)[k];
        let i = choose|i: int|
            0 <= i < s.nodes.len() && (#[trigger] s.nodes[i]).node == edge.0 && s.dist(i) <= s.dist(
                j,
            ) + edge.1;
        assert(t.nodes[i].node == edge.0);
        assert(t.dist(i) <= t.dist(j) + edge.1);
    }
    assert forall|j: int|
        0 <= j < t.nodes.len() && (#[trigger] t.nodes[j]).finalized implies t.is_lower_bound(j) by {
        assert(j < s.nodes.len());
        assert(s.nodes[j].finalized);
        assert(s.is_lower_bound(j));
        assert(t.nodes[0].node == s.nodes[0].node);
        assert forall|route: Seq<usize>, weights: Seq<u64>| #[trigger]
            t.graph.is_route_between(
                t.source(),
                t.nodes[j].node,
                route,
                weights,
            ) implies t.dist(j) <= total(weights) by {
            assert(s.graph.is_route_between(s.source(), s.nodes[j].node, route, weights));
        }
    }
}

/// The sum that relaxation computes fits the type of a distance.
pub proof fn lemma_sum_fits(s: DijkstraState, w: u64)
    requires
        s.shaped(),
    ensures
        s.dist(s.last_updated) + w <= distance_bound(s.nodes.len() + 1),
        distance_bound(s.nodes.len() + 1) <= u128::MAX,
        distance_bound(s.nodes.len()) <= distance_bound(s.nodes.len() + 1),
{
    lemma_discovered_fit(s);
    assert(s.nodes[s.last_updated].distance is Finite);
}

/// Relaxing the next edge out of the node finalized last keeps what holds
/// during relaxation, and covers that edge.
pub proof fn lemma_relax_edge(s: DijkstraState, m: int)
    requires
        s.inv_relaxing(m),
        0 <= m < s.degree(),
    ensures
        ({
            let t = s.relax_edge(s.graph.out(s.nodes[s.last_updated].node)[m]);
            &&& t.inv_relaxing(m + 1)
            &&& s.continued_by(t)
            &&& t.last_updated == s.last_updated
            &&& t.nodes[t.last_updated] == s.nodes[s.last_updated]
            &&& t.source() == s.source()
            &&& finalized_count(t.nodes) == finalized_count(s.nodes)
        }),
{
    let last = s.last_updated;
    let from = s.nodes[last].node;
    let edge = s.graph.out(from)[m];
    let t = s.relax_edge(edge);
    let sum = s.dist(last) + edge.1;
    let through = WorkingNode {
        node: edge.0,
        distance: Distance::Finite(sum as u128),
        finalized: false,
        predecessor: Some(from),
    };
    lemma_sum_fits(s, edge.1);
    assert(through.distance.value() == sum);
    assert(s.graph.has_node(from));
    assert(s.graph.has_node(edge.0));
    assert(s.graph.has_edge(from, edge.0, edge.1));
    assert(s.nodes[last].distance is Finite);
    match s.position(edge.0) {
        None => {
            lemma_position_none(s, edge.0);
            let n = s.nodes.len() as int;
            assert(t.nodes == s.nodes.push(through));
            lemma_count_push(s.nodes, through);
            lemma_persist(s, t, m);
            assert forall|i: int| 1 <= i < t.nodes.len() implies #[trigger] t.has_support(i) by {
                if i < n {
                    assert(s.has_support(i));
                    let j = choose|j: int| s.supports(j, i);
                    assert(t.supports(j, i));
                } else {
                    assert(t.supports(last, i));
                }
            }
            assert(t.shaped());
            assert forall|j: int, k: int|
                0 <= j < t.nodes.len() && t.nodes[j].finalized && 0 <= k < t.graph.out(
                    t.nodes[j].node,
                ).len() && (j != t.last_updated || k < m + 1) implies #[trigger] t.covered(
                j,
                k,
            ) by {
                if j == last && k == m {
                    assert(t.nodes[n].node == edge.0);
                    assert(t.dist(n) <= t.dist(last) + edge.1);
                }
            }
        },
        Some(i) => {
            assert(s.is_position(edge.0, i));
            if !s.nodes[i].finalized && through.distance.below(s.nodes[i].distance) {
                assert(t.nodes == s.nodes.update(i, through));
                lemma_count_update(s.nodes, i, through);
                assert(s.nodes[i].distance is Finite);
                lemma_persist(s, t, m);
                assert forall|x: int| 1 <= x < t.nodes.len() implies #[trigger] t.has_support(
                    x,
                ) by {
                    if x == i {
                        assert(t.supports(last, x));
                    } else {
                        assert(s.has_support(x));
                        let j = choose|j: int| s.supports(j, x);
                        assert(t.supports(j, x));
                    }
                }
                assert(t.shaped());
                assert forall|j: int, k: int|
                    0 <= j < t.nodes.len() && t.nodes[j].finalized && 0 <= k < t.graph.out(
                        t.nodes[j].node,
                    ).len() && (j != t.last_updated || k < m + 1) implies #[trigger] t.covered(
                    j,
                    k,
                ) by {
                    if j == last && k == m {
                        assert(t.nodes[i].node == edge.0);
                    }
                }
            } else {
                assert(t == s);
                assert(s.nodes[i].distance is Finite);
                assert forall|j: int, k: int|
                    0 <= j < t.nodes.len() && t.nodes[j].finalized && 0 <= k < t.graph.out(
                        t.nodes[j].node,
                    ).len() && (j != t.last_updated || k < m + 1) implies #[trigger] t.covered(
                    j,
                    k,
                ) by {
                    if j == last && k == m {
                        assert(s.nodes[i].node == edge.0);
                        assert(s.dist(i) <= s.dist(last) + edge.1);
                    }
                }
            }
        },
    }
}

/// Relaxing the first `m` edges out of the node finalized last covers them
/// and changes neither that node nor any finalized one.
pub proof fn lemma_relax_edges(s: DijkstraState, m: int)
    requires
        s.inv(),
        0 <= m <= s.degree(),
    ensures
        ({
            let t = s.relax_edges(s.graph.out(s.nodes[s.last_updated].node).subrange(0, m));
            &&& t.inv_relaxing(m)
            &&& s.continued_by(t)
            &&& t.last_updated == s.last_updated
            &&& t.nodes[t.last_updated] == s.nodes[s.last_updated]
            &&& t.source() == s.source()
            &&& finalized_count(t.nodes) == finalized_count(s.nodes)
        }),
    decreases m,
{
    let edges = s.graph.out(s.nodes[s.last_updated].node);
    if m > 0 {
        lemma_relax_edges(s, m - 1);
        let before = s.relax_edges(edges.subrange(0, m - 1));
        assert(edges.subrange(0, m).drop_last() =~= edges.subrange(0, m - 1));
        assert(edges.subrange(0, m).last() == edges[m - 1]);
        lemma_relax_edge(before, m - 1);
    }
}

/// After relaxation all edges out of the finalized nodes are covered.
pub proof fn lemma_relaxed(s: DijkstraState)
    requires
        s.inv(),
    ensures
        s.relaxed().inv_relaxing(s.degree()),
        s.relaxed().degree() == s.degree(),
        s.relaxed().inv(),
        s.continued_by(s.relaxed()),
        s.relaxed().last_updated == s.last_updated,
        s.relaxed().source() == s.source(),
        finalized_count(s.relaxed().nodes) == finalized_count(s.nodes),
{
    let edges = s.graph.out(s.nodes[s.last_updated].node);
    lemma_relax_edges(s, s.degree());
    assert(edges.subrange(0, s.degree()) =~= edges);
}

/// What identifies the node to finalize next identifies it uniquely.
pub proof fn lemma_least_is(s: DijkstraState, i: int)
    requires
        s.is_least(i),
    ensures
        s.least() == Some(i),
{
    let c = choose|c: int| s.is_least(c);
    assert(s.is_candidate(c));
    assert(s.is_candidate(i));
}

/// Where all edges out of the finalized nodes are covered, every route from
/// the source ends at a discovered node of at most its weight, or is at
/// least as long as the distance of some node that is not finalized.
pub proof fn lemma_route_meets(s: DijkstraState, route: Seq<usize>, weights: Seq<u64>)
    requires
        s.shaped(),
        s.closed_up_to(s.degree()),
        s.graph.is_route(route, weights),
        route.first() == s.source(),
    ensures
        exists|i: int| #[trigger] s.meets(i, route.last(), total(weights)),
    decreases weights.len(),
{
    if weights.len() == 0 {
        assert(s.meets(0, route.last(), total(weights)));
    } else {
        lemma_route_drop_last(s.graph, route, weights);
        let before = route.drop_last();
        let before_weights = weights.drop_last();
        lemma_route_meets(s, before, before_weights);
        let j = choose|j: int| #[trigger] s.meets(j, before.last(), total(before_weights));
        if !s.nodes[j].finalized {
            assert(s.meets(j, route.last(), total(weights)));
        } else {
            let from = s.nodes[j].node;
            let k = choose|k: int|
                0 <= k < s.graph.out(from).len() && #[trigger] s.graph.out(from)[k] == (
                    route.last(),
                    weights.last(),
                );
            assert(s.covered(j, k));
            let edge = s.graph.out(from)[k];
            let i = choose|i: int|
                0 <= i < s.nodes.len() && (#[trigger] s.nodes[i]).node == edge.0 && s.dist(i)
                    <= s.dist(j) + edge.1;
            assert(s.meets(i, route.last(), total(weights)));
        }
    }
}

/// Finalizing the nearest candidate after relaxation keeps what holds
/// between steps: its distance is the weight of a cheapest route.
pub proof fn lemma_finalize(s: DijkstraState, i: int)
    requires
        s.inv_relaxing(s.degree()),
        s.is_least(i),
    ensures
        s.finalize(i).inv(),
        s.continued_by(s.finalize(i)),
        s.finalize(i).source() == s.source(),
        finalized_count(s.finalize(i).nodes) == finalized_count(s.nodes) + 1,
{
    let t = s.finalize(i);
    assert(s.is_candidate(i));
    lemma_count_update(s.nodes, i, WorkingNode { finalized: true, ..s.nodes[i] });
    assert forall|x: int| 1 <= x < t.nodes.len() implies #[trigger] t.has_support(x) by {
        assert(s.has_support(x));
        let j = choose|j: int| s.supports(j, x);
        assert(t.supports(j, x));
    }
    assert forall|x: int| 0 <= x < t.nodes.len() && !(#[trigger] t.nodes[x]).finalized implies t.dist(
        t.last_updated,
    ) <= t.dist(x) by {
        assert(s.nodes[x].distance is Finite);
        assert(s.is_candidate(x));
    }
    assert forall|x: int| 0 <= x < t.nodes.len() && (#[trigger] t.nodes[x]).finalized implies t.dist(
        x,
    ) <= t.dist(t.last_updated) by {
        if x != i {
            assert(s.nodes[x].finalized);
        }
    }
    assert(t.shaped());
    assert forall|j: int, k: int|
        0 <= j < t.nodes.len() && t.nodes[j].finalized && 0 <= k < t.graph.out(
            t.nodes[j].node,
        ).len() && (j != t.last_updated || k < 0) implies #[trigger] t.covered(j, k) by {
        assert(s.nodes[j].finalized);
        assert(s.covered(j, k));
        let edge = s.graph.out(s.nodes[j].node)[k];
        let x = choose|x: int|
            0 <= x < s.nodes.len() && (#[trigger] s.nodes[x]).node == edge.0 && s.dist(x) <= s.dist(
                j,
            ) + edge.1;
        assert(t.nodes[x].node == edge.0);
        assert(t.dist(x) <= t.dist(j) + edge.1);
    }
    assert forall|j: int|
        0 <= j < t.nodes.len() && (#[trigger] t.nodes[j]).finalized implies t.is_lower_bound(j) by {
        assert forall|route: Seq<usize>, weights: Seq<u64>| #[trigger]
            t.graph.is_route_between(
                t.source(),
                t.nodes[j].node,
                route,
                weights,
            ) implies t.dist(j) <= total(weights) by {
            if j != i {
                assert(s.nodes[j].finalized);
                assert(s.is_lower_bound(j));
                assert(s.graph.is_route_between(s.source(), s.nodes[j].node, route, weights));
            } else {
                lemma_route_meets(s, route, weights);
                let x = choose|x: int| #[trigger] s.meets(x, route.last(), total(weights));
                if s.nodes[x].finalized {
                    if x < i {
                        assert(s.nodes[x].node != s.nodes[i].node);
                    }
                    if i < x {
                        assert(s.nodes[i].node != s.nodes[x].node);
                    }
                } else {
                    assert(s.nodes[x].distance is Finite);
                    assert(s.is_candidate(x));
                }
            }
        }
    }
}

/// The predecessors of a discovered node describe a route from the source
/// to it, whose weight is the distance of the node.
pub proof fn lemma_path_to(s: DijkstraState, i: int)
    requires
        s.shaped(),
        0 <= i < s.nodes.len(),
    ensures
        s.graph.is_route_between(s.source(), s.nodes[i].node, s.path_to(i), s.weights_to(i)),
        total(s.weights_to(i)) == s.dist(i),
        s.path_to(i).len() == s.depth[i] + 1,
        s.path_to(i).last() == s.nodes[i].node,
        i > 0 ==> s.nodes[i].predecessor is Some && s.position(
            s.nodes[i].predecessor.unwrap(),
        ) is Some && s.supports(s.position(s.nodes[i].predecessor.unwrap()).unwrap(), i)
            && s.path_to(i) == s.path_to(
            s.position(s.nodes[i].predecessor.unwrap()).unwrap(),
        ).push(s.nodes[i].node),
        i == 0 ==> s.path_to(i) == seq![s.source()],
    decreases s.depth[i],
{
    if i == 0 {
        assert(s.graph.has_node(s.nodes[0].node));
        assert(s.path_to(0) == seq![s.source()]);
        assert(s.weights_to(0) == Seq::<u64>::empty());
    } else {
        assert(s.has_support(i));
        let j = choose|j: int| s.supports(j, i);
        lemma_position_found(s, j);
        lemma_path_to(s, j);
        let w = (s.dist(i) - s.dist(j)) as u64;
        lemma_route_push(s.graph, s.path_to(j), s.weights_to(j), s.nodes[i].node, w);
    }
}

/// When the search has finished it has found a cheapest route from the
/// source to the target and its weight, or else no route leads there.
pub proof fn lemma_outcome(s: DijkstraState)
    requires
        s.inv(),
        s.settled(),
    ensures
        match s.outcome() {
            Some(found) => exists|weights: Seq<u64>|
                total(weights) == found.1 && #[trigger] s.graph.is_cheapest_route(
                    s.source(),
                    s.end,
                    found.0,
                    weights,
                ),
            None => !s.graph.reachable(s.source(), s.end),
        },
{
    match s.position(s.end) {
        Some(e) => {
            assert(s.is_position(s.end, e));
            if s.target_found() {
                let x = choose|x: int|
                    0 <= x < s.nodes.len() && (#[trigger] s.nodes[x]).node == s.end
                        && s.nodes[x].finalized;
                lemma_position_found(s, x);
            }
            assert(s.nodes[e].finalized);
            assert(s.is_lower_bound(e));
            lemma_path_to(s, e);
            let found = s.outcome().unwrap();
            assert(s.graph.is_cheapest_route(s.source(), s.end, found.0, s.weights_to(e)));
        },
        None => {
            lemma_position_none(s, s.end);
            if s.graph.reachable(s.source(), s.end) {
                let (route, weights) = choose|route: Seq<usize>, weights: Seq<u64>|
                    s.graph.is_route_between(s.source(), s.end, route, weights);
                lemma_route_meets(s, route, weights);
                let x = choose|x: int| #[trigger] s.meets(x, route.last(), total(weights));
                assert(s.nodes[x].finalized);
                assert(false);
            }
        },
    }
}

/// The state before the first step is as it has to be between steps.
pub proof fn lemma_initial(graph: GraphView, start: usize, end: usize)
    requires
        graph.wf(),
        graph.has_node(start),
    ensures
        DijkstraState::initial(graph, start, end).inv(),
{
    let s = DijkstraState::initial(graph, start, end);
    assert(s.shaped());
    assert forall|j: int|
        0 <= j < s.nodes.len() && (#[trigger] s.nodes[j]).finalized implies s.is_lower_bound(j) by {
        assert forall|route: Seq<usize>, weights: Seq<u64>| #[trigger]
            s.graph.is_route_between(
                s.source(),
                s.nodes[j].node,
                route,
                weights,
            ) implies s.dist(j) <= total(weights) by {}
    }
}

/// A step keeps what holds between steps. It changes neither the graph
/// nor the source nor the target, deletes no record, and leaves the
/// record of every finalized node as it is: a final distance is final.
pub proof fn lemma_next(s: DijkstraState)
    requires
        s.inv(),
    ensures
        s.next().inv(),
        s.continued_by(s.next()),
        s.next().source() == s.source(),
        s.next_finishes() ==> s.next().settled(),
        !s.next_finishes() ==> s.next().remaining() < s.remaining(),
{
    lemma_relaxed(s);
    let relaxed = s.relaxed();
    match relaxed.least() {
        Some(i) => {
            lemma_finalize(relaxed, i);
            lemma_discovered_fit(relaxed.finalize(i));
            assert(relaxed.finalize(i).nodes[i].node == relaxed.nodes[i].node);
        },
        None => {
            assert forall|i: int| 0 <= i < relaxed.nodes.len() implies (
            #[trigger] relaxed.nodes[i]).finalized by {
                if !relaxed.nodes[i].finalized {
                    assert(relaxed.nodes[i].distance is Finite);
                    assert(relaxed.is_candidate(i));
                    lemma_least_exists(relaxed, relaxed.nodes.len() as int);
                }
            }
        },
    }
}

/// Where one of the first `n` records is a candidate, a node to finalize
/// next is among them.
pub proof fn lemma_least_exists(s: DijkstraState, n: int)
    requires
        0 <= n <= s.nodes.len(),
    ensures
        (exists|j: int| 0 <= j < n && s.is_candidate(j)) ==> exists|i: int|
            0 <= i < n && #[trigger] s.is_candidate(i) && forall|j: int|
                0 <= j < n && #[trigger] s.is_candidate(j) ==> s.dist(i) <= s.dist(j) && (j < i
                    ==> s.dist(i) < s.dist(j)),
        n == s.nodes.len() && (exists|j: int| s.is_candidate(j)) ==> s.least() is Some,
    decreases n,
{
    if n > 0 {
        lemma_least_exists(s, n - 1);
        let last = n - 1;
        if exists|j: int| 0 <= j < n - 1 && s.is_candidate(j) {
            let b = choose|i: int|
                0 <= i < n - 1 && #[trigger] s.is_candidate(i) && forall|j: int|
                    0 <= j < n - 1 && #[trigger] s.is_candidate(j) ==> s.dist(i) <= s.dist(j) && (j
                        < i ==> s.dist(i) < s.dist(j));
            let i = if s.is_candidate(last) && s.dist(last) < s.dist(b) {
                last
            } else {
                b
            };
            assert(s.is_candidate(i) && forall|j: int|
                0 <= j < n && #[trigger] s.is_candidate(j) ==> s.dist(i) <= s.dist(j) && (j < i
                    ==> s.dist(i) < s.dist(j)));
        } else if s.is_candidate(last) {
            assert(s.is_candidate(last) && forall|j: int|
                0 <= j < n && #[trigger] s.is_candidate(j) ==> s.dist(last) <= s.dist(j) && (j
                    < last ==> s.dist(last) < s.dist(j)));
        }
    }
    if n == s.nodes.len() && (exists|j: int| s.is_candidate(j)) {
        let j = choose|j: int| s.is_candidate(j);
        assert(0 <= j < n && s.is_candidate(j));
        let i = choose|i: int|
            0 <= i < n && #[trigger] s.is_candidate(i) && forall|j: int|
                0 <= j < n && #[trigger] s.is_candidate(j) ==> s.dist(i) <= s.dist(j) && (j < i
                    ==> s.dist(i) < s.dist(j));
        assert(s.is_least(i));
        lemma_least_is(s, i);
    }
}

/// Steps keep what holds between steps, and change neither the graph nor
/// the source nor the target.
pub proof fn lemma_steps_keep(s: DijkstraState, n: nat)
    requires
        s.inv(),
    ensures
        s.after(n).inv(),
        s.continued_by(s.after(n)),
        s.after(n).source() == s.source(),
    decreases n,
{
    if n > 0 {
        lemma_steps_keep(s, (n - 1) as nat);
        lemma_next(s.after((n - 1) as nat));
    }
}

} // verus!
