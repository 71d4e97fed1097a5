use vstd::prelude::*;
use vstd::set_lib::{lemma_int_range, lemma_len_subset, set_int_range};

verus! {

/// How the edge from one node to another is classified.
///
/// Nothing of this is stored: an edge is weighted when its weight is
/// positive, and undirected when the target has an edge back to the source.
#[derive(Debug, Clone, Copy, PartialEq, Eq, Structural)]
pub enum EdgeType {
    UndirectedWeighted,
    DirectedWeighted,
    UndirectedUnweighted,
    DirectedUnweighted,
}

/// A graph vertex: an optional label and its outgoing edges, each a target
/// handle and a weight, in insertion order. A weight of 0 means "unweighted".
pub struct Node {
    edges: Vec<(usize, u64)>,
    pub id: Option<usize>,
}

/// The mathematical content of a `Node`.
pub struct NodeView {
    pub id: Option<usize>,
    pub edges: Seq<(usize, u64)>,
}

/// An arena that owns the nodes of a graph. A node is referred to by its
/// handle, the index at which it was added; handles stay valid forever.
pub struct Graph {
    nodes: Vec<Node>,
}

/// The mathematical content of a `Graph`: its nodes, by handle.
pub struct GraphView {
    pub nodes: Seq<NodeView>,
}

impl EdgeType {
    /// The target of the edge has an edge back.
    pub open spec fn undirected(self) -> bool {
        self == EdgeType::UndirectedWeighted || self == EdgeType::UndirectedUnweighted
    }

    /// The weight of the edge is positive.
    pub open spec fn weighted(self) -> bool {
        self == EdgeType::UndirectedWeighted || self == EdgeType::DirectedWeighted
    }
}

/// The classification of an edge that is directed or not, weighted or not.
pub open spec fn classify(directed: bool, weighted: bool) -> EdgeType {
    if directed {
        if weighted {
            EdgeType::DirectedWeighted
        } else {
            EdgeType::DirectedUnweighted
        }
    } else {
        if weighted {
            EdgeType::UndirectedWeighted
        } else {
            EdgeType::UndirectedUnweighted
        }
    }
}

/// Whether `k` is the position of the first edge to `target` in `edges`.
pub open spec fn is_first_edge_to(edges: Seq<(usize, u64)>, target: usize, k: int) -> bool {
    &&& 0 <= k < edges.len()
    &&& edges[k].0 == target
    &&& forall|j: int| 0 <= j < k ==> (#[trigger] edges[j]).0 != target
}

/// The position of the first edge to `target` in `edges`, if there is one.
pub open spec fn first_edge_to(edges: Seq<(usize, u64)>, target: usize) -> Option<int> {
    if exists|k: int| is_first_edge_to(edges, target, k) {
        Some(choose|k: int| is_first_edge_to(edges, target, k))
    } else {
        None
    }
}

/// The edges out of `from` among the insertions `ops`, in order.
/// An insertion is a triple of source, target and weight.
pub open spec fn inserted_from(ops: Seq<(usize, usize, u64)>, from: usize) -> Seq<(usize, u64)>
    decreases ops.len(),
{
    if ops.len() == 0 {
        Seq::empty()
    } else {
        let rest = inserted_from(ops.drop_last(), from);
        if ops.last().0 == from {
            rest.push((ops.last().1, ops.last().2))
        } else {
            rest
        }
    }
}

impl GraphView {
    pub open spec fn len(self) -> nat {
        self.nodes.len()
    }

    pub open spec fn has_node(self, a: usize) -> bool {
        a < self.nodes.len()
    }

    /// The outgoing edges of `a`, in insertion order.
    pub open spec fn out(self, a: usize) -> Seq<(usize, u64)> {
        self.nodes[a as int].edges
    }

    /// Every edge leads to a node of the graph.
    pub open spec fn wf(self) -> bool {
        forall|a: usize, k: int|
            self.has_node(a) && 0 <= k < self.out(a).len() ==> self.has_node(
                (#[trigger] self.out(a)[k]).0,
            )
    }

    /// There is an edge of weight `w` from `a` to `b`.
    pub open spec fn has_edge(self, a: usize, b: usize, w: u64) -> bool {
        &&& self.has_node(a)
        &&& exists|k: int| 0 <= k < self.out(a).len() && #[trigger] self.out(a)[k] == (b, w)
    }

    /// There is an edge from `a` to `b`.
    pub open spec fn linked(self, a: usize, b: usize) -> bool {
        &&& self.has_node(a)
        &&& exists|k: int| 0 <= k < self.out(a).len() && (#[trigger] self.out(a)[k]).0 == b
    }

    /// No node has two edges to the same target.
    pub open spec fn simple(self) -> bool {
        forall|a: usize, j: int, k: int|
            self.has_node(a) && 0 <= j < k < self.out(a).len() ==> (#[trigger] self.out(a)[j]).0 != (
            #[trigger] self.out(a)[k]).0
    }

    /// How the edge from `a` to `b` is classified; `None` when there is no such edge.
    /// Where `a` has several edges to `b`, the first one gives the weight.
    pub open spec fn edge_type(self, a: usize, b: usize) -> Option<EdgeType> {
        match first_edge_to(self.out(a), b) {
            Some(k) => Some(classify(!self.linked(b, a), self.out(a)[k].1 > 0)),
            None => None,
        }
    }

    /// The graph with one more node, which gets the next handle.
    pub open spec fn with_node(self, node: NodeView) -> GraphView {
        GraphView { nodes: self.nodes.push(node) }
    }

    /// The graph with an edge from `a` to `b` appended to the edges of `a`.
    pub open spec fn with_directed_edge(self, a: usize, b: usize, w: u64) -> GraphView {
        GraphView {
            nodes: self.nodes.update(
                a as int,
                NodeView { id: self.nodes[a as int].id, edges: self.out(a).push((b, w)) },
            ),
        }
    }

    /// The graph with an edge from `a` to `b` and then one from `b` to `a`.
    pub open spec fn with_undirected_edge(self, a: usize, b: usize, w: u64) -> GraphView {
        self.with_directed_edge(a, b, w).with_directed_edge(b, a, w)
    }

    /// The graph after the directed insertions `ops`, made in order.
    pub open spec fn with_edges(self, ops: Seq<(usize, usize, u64)>) -> GraphView
        decreases ops.len(),
    {
        if ops.len() == 0 {
            self
        } else {
            self.with_edges(ops.drop_last()).with_directed_edge(
                ops.last().0,
                ops.last().1,
                ops.last().2,
            )
        }
    }
}

impl View for Node {
    type V = NodeView;

    closed spec fn view(&self) -> NodeView {
        NodeView { id: self.id, edges: self.edges@ }
    }
}

impl View for Graph {
    type V = GraphView;

    closed spec fn view(&self) -> GraphView {
        GraphView { nodes: Seq::new(self.nodes@.len(), |i: int| self.nodes@[i]@) }
    }
}

impl Node {
    /// A node without a label and without edges.
    pub fn empty() -> (node: Node)
        ensures
            node@ == (NodeView { id: None, edges: Seq::empty() }),
    {
        Node { edges: Vec::new(), id: None }
    }

    /// A node labelled `id`, without edges.
    pub fn empty_id(id: usize) -> (node: Node)
        ensures
            node@ == (NodeView { id: Some(id), edges: Seq::empty() }),
    {
        Node { edges: Vec::new(), id: Some(id) }
    }

    /// The label of the node.
    pub fn id(&self) -> (id: Option<usize>)
        ensures
            id == self@.id,
    {
        self.id
    }

    /// The outgoing edges of the node, in insertion order.
    pub fn out_edges(&self) -> (edges: &Vec<(usize, u64)>)
        ensures
            edges@ == self@.edges,
    {
        &self.edges
    }

    /// Appends an edge of weight `weight` from `start` to `end`.
    /// Only the edges of `start` change.
    pub fn add_weighted_directed_edge(graph: &mut Graph, start: usize, end: usize, weight: u64)
        requires
            old(graph)@.wf(),
            old(graph)@.has_node(start),
            old(graph)@.has_node(end),
        ensures
            final(graph)@ == old(graph)@.with_directed_edge(start, end, weight),
            final(graph)@.wf(),
            old(graph)@.simple() && !old(graph)@.linked(start, end) ==> final(graph)@.simple(),
    {
        graph.nodes[start].edges.push((end, weight));
        proof {
            let before = old(graph)@;
            let after = graph@;
            assert(after.nodes =~= before.with_directed_edge(start, end, weight).nodes);
            lemma_with_directed_edge_wf(before, start, end, weight);
            if before.simple() && !before.linked(start, end) {
                lemma_with_directed_edge_simple(before, start, end, weight);
            }
        }
    }

    /// Appends an edge of weight 0 from `start` to `end`.
    pub fn add_unweighted_directed_edge(graph: &mut Graph, start: usize, end: usize)
        requires
            old(graph)@.wf(),
            old(graph)@.has_node(start),
            old(graph)@.has_node(end),
        ensures
            final(graph)@ == old(graph)@.with_directed_edge(start, end, 0),
            final(graph)@.wf(),
            old(graph)@.simple() && !old(graph)@.linked(start, end) ==> final(graph)@.simple(),
    {
        Self::add_weighted_directed_edge(graph, start, end, 0);
    }

    /// Appends an edge of weight `weight` from `start` to `end` and then one
    /// from `end` to `start`. Only the edges of these two nodes change.
    pub fn add_weighted_undirected_edge(graph: &mut Graph, start: usize, end: usize, weight: u64)
        requires
            old(graph)@.wf(),
            old(graph)@.has_node(start),
            old(graph)@.has_node(end),
        ensures
            final(graph)@ == old(graph)@.with_undirected_edge(start, end, weight),
            final(graph)@.wf(),
            old(graph)@.simple() && start != end && !old(graph)@.linked(start, end) && !old(
                graph,
            )@.linked(end, start) ==> final(graph)@.simple(),
    {
        Self::add_weighted_directed_edge(graph, start, end, weight);
        proof {
            if start != end && !old(graph)@.linked(end, start) {
                lemma_with_directed_edge_links(old(graph)@, start, end, weight, end, start);
            }
        }
        Self::add_weighted_directed_edge(graph, end, start, weight);
    }

    /// Appends an edge of weight 0 from `start` to `end` and then one from
    /// `end` to `start`.
    pub fn add_unweighted_undirected_edge(graph: &mut Graph, start: usize, end: usize)
        requires
            old(graph)@.wf(),
            old(graph)@.has_node(start),
            old(graph)@.has_node(end),
        ensures
            final(graph)@ == old(graph)@.with_undirected_edge(start, end, 0),
            final(graph)@.wf(),
            old(graph)@.simple() && start != end && !old(graph)@.linked(start, end) && !old(
                graph,
            )@.linked(end, start) ==> final(graph)@.simple(),
    {
        Self::add_weighted_undirected_edge(graph, start, end, 0);
    }

    /// Classifies the edge from `this` to `other`: weighted when its weight is
    /// positive, directed when `other` has no edge back to `this`.
    /// `None` when `this` has no edge to `other`.
    pub fn edge_type_to(graph: &Graph, this: usize, other: usize) -> (kind: Option<EdgeType>)
        requires
            graph@.has_node(this),
            graph@.has_node(other),
        ensures
            kind == graph@.edge_type(this, other),
            kind is Some <==> graph@.linked(this, other),
    {
        let edges = graph.node(this).out_edges();
        let i = position_of_target(edges, other);
        match i {
            None => None,
            Some(i) => {
                let is_weighted = edges[i].1 > 0;
                let back = position_of_target(graph.node(other).out_edges(), this);
                let is_directed = back.is_none();
                proof {
                    if let Some(j) = back {
                        assert(graph@.out(other)[j as int].0 == this);
                    }
                    assert(edges@[i as int].0 == other);
                }
                Some(
                    match (is_directed, is_weighted) {
                        (true, true) => EdgeType::DirectedWeighted,
                        (true, false) => EdgeType::DirectedUnweighted,
                        (false, true) => EdgeType::UndirectedWeighted,
                        (false, false) => EdgeType::UndirectedUnweighted,
                    },
                )
            },
        }
    }
}

/// The position of the first edge to `target`, if there is one.
pub fn position_of_target(edges: &Vec<(usize, u64)>, target: usize) -> (found: Option<usize>)
    ensures
        match found {
            Some(k) => is_first_edge_to(edges@, target, k as int),
            None => forall|j: int| 0 <= j < edges@.len() ==> (#[trigger] edges@[j]).0 != target,
        },
        found == match first_edge_to(edges@, target) {
            Some(k) => Some(k as usize),
            None => None,
        },
{
    let mut k: usize = 0;
    while k < edges.len()
        invariant
            k <= edges.len(),
            forall|j: int| 0 <= j < k ==> (#[trigger] edges@[j]).0 != target,
        decreases edges.len() - k,
    {
        if edges[k].0 == target {
            proof {
                lemma_first_edge_to(edges@, target, k as int);
            }
            return Some(k);
        }
        k = k + 1;
    }
    None
}

impl Graph {
    /// A graph without nodes.
    pub fn new() -> (graph: Graph)
        ensures
            graph@.nodes == Seq::<NodeView>::empty(),
            graph@.wf(),
            graph@.simple(),
    {
        let graph = Graph { nodes: Vec::new() };
        assert(graph@.nodes =~= Seq::<NodeView>::empty());
        graph
    }

    /// The number of nodes; the handles are the numbers below it.
    pub fn len(&self) -> (n: usize)
        ensures
            n == self@.len(),
    {
        self.nodes.len()
    }

    /// Moves a node without edges into the graph and returns its handle.
    pub fn add_node(&mut self, node: Node) -> (handle: usize)
        requires
            old(self)@.wf(),
            node@.edges.len() == 0,
        ensures
            handle == old(self)@.len(),
            final(self)@ == old(self)@.with_node(node@),
            final(self)@.wf(),
            old(self)@.simple() ==> final(self)@.simple(),
    {
        let handle = self.nodes.len();
        self.nodes.push(node);
        proof {
            assert(self@.nodes =~= old(self)@.with_node(node@).nodes);
            lemma_with_node(old(self)@, node@);
        }
        handle
    }

    /// The node behind a handle.
    pub fn node(&self, handle: usize) -> (node: &Node)
        requires
            self@.has_node(handle),
        ensures
            node@ == self@.nodes[handle as int],
    {
        &self.nodes[handle]
    }
}

/// What identifies the first edge to a target identifies it uniquely.
pub proof fn lemma_first_edge_to(edges: Seq<(usize, u64)>, target: usize, k: int)
    requires
        is_first_edge_to(edges, target, k),
    ensures
        first_edge_to(edges, target) == Some(k),
{
    let c = choose|c: int| is_first_edge_to(edges, target, c);
    if c < k {
        assert(edges[c].0 != target);
    }
    if k < c {
        assert(edges[k].0 != target);
    }
}

/// Where some edge leads to `target`, a first one does.
pub proof fn lemma_first_edge_exists(edges: Seq<(usize, u64)>, target: usize, k: int)
    requires
        0 <= k < edges.len(),
        edges[k].0 == target,
    ensures
        first_edge_to(edges, target) is Some,
        is_first_edge_to(edges, target, first_edge_to(edges, target).unwrap()),
        first_edge_to(edges, target).unwrap() <= k,
    decreases k,
{
    if exists|j: int| 0 <= j < k && (#[trigger] edges[j]).0 == target {
        let j = choose|j: int| 0 <= j < k && (#[trigger] edges[j]).0 == target;
        lemma_first_edge_exists(edges, target, j);
    } else {
        assert(is_first_edge_to(edges, target, k));
        lemma_first_edge_to(edges, target, k);
    }
}

/// Adding a node without edges keeps the graph well-formed, and simple if it was.
pub proof fn lemma_with_node(g: GraphView, node: NodeView)
    requires
        g.wf(),
        node.edges.len() == 0,
    ensures
        g.with_node(node).wf(),
        g.simple() ==> g.with_node(node).simple(),
        forall|a: usize| g.has_node(a) ==> g.with_node(node).out(a) == g.out(a),
{
    let h = g.with_node(node);
    assert forall|a: usize, k: int| h.has_node(a) && 0 <= k < h.out(a).len() implies h.has_node(
        (#[trigger] h.out(a)[k]).0,
    ) by {
        assert(g.has_node(a));
        assert(h.out(a)[k] == g.out(a)[k]);
    }
    if g.simple() {
        assert forall|a: usize, j: int, k: int|
            h.has_node(a) && 0 <= j < k < h.out(a).len() implies (#[trigger] h.out(a)[j]).0 != (
        #[trigger] h.out(a)[k]).0 by {
            assert(g.has_node(a));
            assert(h.out(a)[j] == g.out(a)[j]);
            assert(h.out(a)[k] == g.out(a)[k]);
        }
    }
}

/// An inserted edge between nodes of the graph keeps it well-formed.
pub proof fn lemma_with_directed_edge_wf(g: GraphView, a: usize, b: usize, w: u64)
    requires
        g.wf(),
        g.has_node(a),
        g.has_node(b),
    ensures
        g.with_directed_edge(a, b, w).wf(),
        g.with_directed_edge(a, b, w).len() == g.len(),
{
    let h = g.with_directed_edge(a, b, w);
    assert forall|c: usize, k: int| h.has_node(c) && 0 <= k < h.out(c).len() implies h.has_node(
        (#[trigger] h.out(c)[k]).0,
    ) by {
        if c == a {
            if k < g.out(a).len() {
                assert(h.out(c)[k] == g.out(a)[k]);
            }
        } else {
            assert(h.out(c)[k] == g.out(c)[k]);
        }
    }
}

/// Which nodes are linked after an insertion: those that were, and the two of the new edge.
pub proof fn lemma_with_directed_edge_links(
    g: GraphView,
    a: usize,
    b: usize,
    w: u64,
    c: usize,
    d: usize,
)
    requires
        g.has_node(a),
    ensures
        g.with_directed_edge(a, b, w).linked(c, d) <==> (g.linked(c, d) || (c == a && d == b)),
{
    let h = g.with_directed_edge(a, b, w);
    if g.linked(c, d) {
        let k = choose|k: int| 0 <= k < g.out(c).len() && (#[trigger] g.out(c)[k]).0 == d;
        assert(h.out(c)[k] == g.out(c)[k]);
    }
    if c == a && d == b {
        assert(h.out(a)[g.out(a).len() as int] == (b, w));
    }
    if h.linked(c, d) {
        let k = choose|k: int| 0 <= k < h.out(c).len() && (#[trigger] h.out(c)[k]).0 == d;
        if c == a {
            if k < g.out(a).len() {
                assert(g.out(c)[k] == h.out(c)[k]);
            }
        } else {
            assert(g.out(c)[k] == h.out(c)[k]);
        }
    }
}

/// An inserted edge between two nodes that had none keeps the graph simple.
pub proof fn lemma_with_directed_edge_simple(g: GraphView, a: usize, b: usize, w: u64)
    requires
        g.simple(),
        g.has_node(a),
        !g.linked(a, b),
    ensures
        g.with_directed_edge(a, b, w).simple(),
{
    let h = g.with_directed_edge(a, b, w);
    assert forall|c: usize, j: int, k: int|
        h.has_node(c) && 0 <= j < k < h.out(c).len() implies (#[trigger] h.out(c)[j]).0 != (
    #[trigger] h.out(c)[k]).0 by {
        if c == a {
            assert(h.out(c)[j] == g.out(a)[j]);
            if k < g.out(a).len() {
                assert(h.out(c)[k] == g.out(a)[k]);
            }
        } else {
            assert(h.out(c)[j] == g.out(c)[j]);
            assert(h.out(c)[k] == g.out(c)[k]);
        }
    }
}

/// The edges of a node after an insertion: one more for the source, the same for every other node.
pub proof fn lemma_with_directed_edge_out(g: GraphView, a: usize, b: usize, w: u64, c: usize)
    requires
        g.has_node(a),
        g.has_node(c),
    ensures
        g.with_directed_edge(a, b, w).len() == g.len(),
        g.with_directed_edge(a, b, w).nodes[c as int].id == g.nodes[c as int].id,
        g.with_directed_edge(a, b, w).out(c) == if c == a {
            g.out(c).push((b, w))
        } else {
            g.out(c)
        },
{
}

/// The first edge from `a` to `b` after an insertion of such an edge: the
/// one that was first before, or else the new edge.
pub proof fn lemma_with_directed_edge_first(g: GraphView, a: usize, b: usize, w: u64)
    requires
        g.has_node(a),
    ensures
        ({
            let h = g.with_directed_edge(a, b, w);
            &&& first_edge_to(h.out(a), b) is Some
            &&& g.linked(a, b) ==> first_edge_to(h.out(a), b) == first_edge_to(g.out(a), b)
                && h.out(a)[first_edge_to(h.out(a), b).unwrap()] == g.out(a)[first_edge_to(
                g.out(a),
                b,
            ).unwrap()]
            &&& !g.linked(a, b) ==> h.out(a)[first_edge_to(h.out(a), b).unwrap()] == (b, w)
        }),
{
    let h = g.with_directed_edge(a, b, w);
    let n = g.out(a).len() as int;
    assert(h.out(a) == g.out(a).push((b, w)));
    if g.linked(a, b) {
        let k = choose|k: int| 0 <= k < g.out(a).len() && (#[trigger] g.out(a)[k]).0 == b;
        lemma_first_edge_exists(g.out(a), b, k);
        let f = first_edge_to(g.out(a), b).unwrap();
        assert forall|j: int| 0 <= j < f implies (#[trigger] h.out(a)[j]).0 != b by {
            assert(h.out(a)[j] == g.out(a)[j]);
        }
        assert(is_first_edge_to(h.out(a), b, f));
        lemma_first_edge_to(h.out(a), b, f);
    } else {
        assert forall|j: int| 0 <= j < n implies (#[trigger] h.out(a)[j]).0 != b by {
            assert(h.out(a)[j] == g.out(a)[j]);
        }
        assert(is_first_edge_to(h.out(a), b, n));
        lemma_first_edge_to(h.out(a), b, n);
    }
}

/// An edge made by the undirected insertion is classified as undirected from
/// both of its ends, and as weighted exactly when its weight is positive,
/// unless an edge that was there before decides otherwise.
pub proof fn lemma_undirected_edge_is_undirected(g: GraphView, a: usize, b: usize, w: u64)
    requires
        g.has_node(a),
        g.has_node(b),
    ensures
        ({
            let h = g.with_undirected_edge(a, b, w);
            &&& h.edge_type(a, b) is Some
            &&& h.edge_type(a, b).unwrap().undirected()
            &&& h.edge_type(b, a) is Some
            &&& h.edge_type(b, a).unwrap().undirected()
            &&& !g.linked(a, b) ==> (h.edge_type(a, b).unwrap().weighted() <==> w > 0)
            &&& !g.linked(b, a) && a != b ==> (h.edge_type(b, a).unwrap().weighted() <==> w > 0)
        }),
{
    let m = g.with_directed_edge(a, b, w);
    let h = m.with_directed_edge(b, a, w);
    lemma_with_directed_edge_out(g, a, b, w, a);
    lemma_with_directed_edge_out(g, a, b, w, b);
    lemma_with_directed_edge_out(m, b, a, w, a);
    lemma_with_directed_edge_out(m, b, a, w, b);
    lemma_with_directed_edge_first(g, a, b, w);
    lemma_with_directed_edge_first(m, b, a, w);
    lemma_with_directed_edge_links(g, a, b, w, a, b);
    lemma_with_directed_edge_links(g, a, b, w, b, a);
    lemma_with_directed_edge_links(m, b, a, w, a, b);
    lemma_with_directed_edge_links(m, b, a, w, b, a);
    if a == b {
        assert(m.linked(a, a));
        lemma_with_directed_edge_first(m, a, a, w);
    } else {
        assert(h.out(a) == m.out(a));
    }
}

/// An edge made by the directed insertion, where the target has no edge
/// back, is classified as directed.
pub proof fn lemma_directed_edge_is_directed(g: GraphView, a: usize, b: usize, w: u64)
    requires
        g.has_node(a),
        g.has_node(b),
        !g.with_directed_edge(a, b, w).linked(b, a),
    ensures
        ({
            let h = g.with_directed_edge(a, b, w);
            &&& h.edge_type(a, b) is Some
            &&& !h.edge_type(a, b).unwrap().undirected()
            &&& !g.linked(a, b) ==> (h.edge_type(a, b).unwrap().weighted() <==> w > 0)
        }),
{
    lemma_with_directed_edge_first(g, a, b, w);
}

/// After any number of insertions the edges of a node are those it had,
/// followed by the inserted edges that leave it, in the order of insertion.
pub proof fn lemma_out_edges_round_trip(g: GraphView, ops: Seq<(usize, usize, u64)>, a: usize)
    requires
        g.has_node(a),
        forall|i: int| 0 <= i < ops.len() ==> g.has_node((#[trigger] ops[i]).0),
    ensures
        g.with_edges(ops).len() == g.len(),
        g.with_edges(ops).nodes[a as int].id == g.nodes[a as int].id,
        g.with_edges(ops).out(a) == g.out(a) + inserted_from(ops, a),
    decreases ops.len(),
{
    if ops.len() == 0 {
        assert(g.out(a) + Seq::<(usize, u64)>::empty() =~= g.out(a));
    } else {
        let before = ops.drop_last();
        let op = ops.last();
        assert forall|i: int| 0 <= i < before.len() implies g.has_node((#[trigger] before[i]).0) by {
            assert(before[i] == ops[i]);
        }
        lemma_out_edges_round_trip(g, before, a);
        lemma_out_edges_round_trip(g, before, op.0);
        lemma_with_directed_edge_out(g.with_edges(before), op.0, op.1, op.2, a);
        if op.0 == a {
            assert((g.out(a) + inserted_from(before, a)).push((op.1, op.2)) =~= g.out(a)
                + inserted_from(ops, a));
        }
    }
}

/// Handles that are all different and all below `n` are at most `n`, and
/// no more than there are handles at all.
pub proof fn lemma_distinct_handles_fit(handles: Seq<usize>, n: nat)
    requires
        forall|i: int, j: int| 0 <= i < j < handles.len() ==> handles[i] != handles[j],
        forall|i: int| 0 <= i < handles.len() ==> handles[i] < n,
    ensures
        handles.len() <= n,
        handles.len() <= usize::MAX + 1,
{
    let numbers = Seq::new(handles.len(), |i: int| handles[i] as int);
    assert forall|i: int, j: int|
        0 <= i < numbers.len() && 0 <= j < numbers.len() && i != j implies numbers[i]
        != numbers[j] by {
        if i < j {
            assert(handles[i] != handles[j]);
        } else {
            assert(handles[j] != handles[i]);
        }
    }
    numbers.unique_seq_to_set();
    let bound: int = if n <= usize::MAX + 1 {
        n as int
    } else {
        usize::MAX + 1
    };
    lemma_int_range(0, bound);
    assert forall|h: int| numbers.to_set().contains(h) implies set_int_range(0, bound).contains(
        h,
    ) by {
        let i = choose|i: int| 0 <= i < numbers.len() && numbers[i] == h;
        assert(handles[i] < n);
    }
    lemma_len_subset(numbers.to_set(), set_int_range(0, bound));
}

} // verus!
