use super::graph::{Graph, GraphView, Node};
use vstd::prelude::*;

verus! {

/// The character of a decimal digit.
pub open spec fn digit(d: nat) -> char {
    if d == 0 {
        '0'
    } else if d == 1 {
        '1'
    } else if d == 2 {
        '2'
    } else if d == 3 {
        '3'
    } else if d == 4 {
        '4'
    } else if d == 5 {
        '5'
    } else if d == 6 {
        '6'
    } else if d == 7 {
        '7'
    } else if d == 8 {
        '8'
    } else {
        '9'
    }
}

/// The decimal digits of a number, without leading zeros.
pub open spec fn decimal(n: nat) -> Seq<char>
    decreases n,
{
    if n < 10 {
        seq![digit(n)]
    } else {
        decimal(n / 10).push(digit(n % 10))
    }
}

/// The text for a label: its digits, or a question mark for a node without one.
pub open spec fn id_text(id: Option<usize>) -> Seq<char> {
    match id {
        Some(id) => decimal(id as nat),
        None => seq!['?'],
    }
}

/// The text for an edge: the target, and the weight where the edge is weighted.
pub open spec fn edge_text(graph: GraphView, edge: (usize, u64)) -> Seq<char> {
    "Node "@ + id_text(graph.nodes[edge.0 as int].id) + if edge.1 > 0 {
        " - Weight: "@ + decimal(edge.1 as nat)
    } else {
        Seq::empty()
    }
}

/// The texts for the edges, each in double quotes, separated by a comma and a space.
pub open spec fn edges_text(graph: GraphView, edges: Seq<(usize, u64)>) -> Seq<char>
    decreases edges.len(),
{
    if edges.len() == 0 {
        Seq::empty()
    } else {
        let before = edges_text(graph, edges.drop_last());
        let separator = if edges.len() == 1 {
            Seq::empty()
        } else {
            ", "@
        };
        before + separator + "\""@ + edge_text(graph, edges.last()) + "\""@
    }
}

/// The text for a node: its label and its edges.
pub open spec fn details_text(graph: GraphView, node: usize) -> Seq<char> {
    "Node "@ + id_text(graph.nodes[node as int].id) + "\nEdges to: ["@ + edges_text(
        graph,
        graph.out(node),
    ) + "]"@
}

/// The digits `digits`, which stand least significant first, as text.
pub open spec fn digits_text(digits: Seq<u8>) -> Seq<char> {
    Seq::new(digits.len(), |t: int| digit(digits[digits.len() - 1 - t] as nat))
}

/// The text of one decimal digit.
fn digit_str(d: u8) -> (text: &'static str)
    requires
        d < 10,
    ensures
        text@ == seq![digit(d as nat)],
{
    proof {
        reveal_strlit("0");
        reveal_strlit("1");
        reveal_strlit("2");
        reveal_strlit("3");
        reveal_strlit("4");
        reveal_strlit("5");
        reveal_strlit("6");
        reveal_strlit("7");
        reveal_strlit("8");
        reveal_strlit("9");
    }
    let text = if d == 0 {
        "0"
    } else if d == 1 {
        "1"
    } else if d == 2 {
        "2"
    } else if d == 3 {
        "3"
    } else if d == 4 {
        "4"
    } else if d == 5 {
        "5"
    } else if d == 6 {
        "6"
    } else if d == 7 {
        "7"
    } else if d == 8 {
        "8"
    } else {
        "9"
    };
    assert(text@ =~= seq![digit(d as nat)]);
    text
}

/// The decimal digits of `n`.
pub fn decimal_string(n: u64) -> (text: String)
    ensures
        text@ == decimal(n as nat),
{
    let mut digits: Vec<u8> = Vec::new();
    digits.push((n % 10) as u8);
    let mut rest = n / 10;
    assert((if rest > 0 {
        decimal(rest as nat)
    } else {
        Seq::empty()
    }) + digits_text(digits@) =~= decimal(n as nat));
    while rest > 0
        invariant
            decimal(n as nat) == (if rest > 0 {
                decimal(rest as nat)
            } else {
                Seq::empty()
            }) + digits_text(digits@),
            forall|t: int| 0 <= t < digits.len() ==> digits@[t] < 10,
        decreases rest,
    {
        let ghost before = digits@;
        digits.push((rest % 10) as u8);
        let ghost shorter = rest;
        rest = rest / 10;
        assert((if rest > 0 {
            decimal(rest as nat)
        } else {
            Seq::empty()
        }) + digits_text(digits@) =~= decimal(shorter as nat) + digits_text(before));
    }
    let mut text = String::new();
    let mut k = digits.len();
    while k > 0
        invariant
            k <= digits.len(),
            forall|t: int| 0 <= t < digits.len() ==> digits@[t] < 10,
            text@ == digits_text(digits@).subrange(0, digits.len() - k),
        decreases k,
    {
        k = k - 1;
        let ghost before = text@;
        text.append(digit_str(digits[k]));
        assert(text@ =~= digits_text(digits@).subrange(0, digits.len() - k));
    }
    assert(text@ =~= digits_text(digits@));
    text
}

/// The text for a label: its digits, or a question mark for a node without one.
pub fn display_id(id: Option<usize>) -> (text: String)
    ensures
        text@ == id_text(id),
{
    match id {
        Some(id) => decimal_string(id as u64),
        None => {
            proof {
                reveal_strlit("?");
            }
            let text = String::from_str("?");
            assert(text@ =~= seq!['?']);
            text
        },
    }
}

impl Node {
    /// A text for the node `node` of `graph`: its label, then its edges,
    /// each with the label of its target and, where it is weighted, its weight.
    pub fn details(graph: &Graph, node: usize) -> (text: String)
        requires
            graph@.wf(),
            graph@.has_node(node),
        ensures
            text@ == details_text(graph@, node),
    {
        let this = graph.node(node);
        let mut text = String::from_str("Node ");
        text.append(display_id(this.id()).as_str());
        text.append("\nEdges to: [");
        let ghost head = text@;
        let edges = this.out_edges();
        let mut k: usize = 0;
        while k < edges.len()
            invariant
                k <= edges.len(),
                graph@.wf(),
                graph@.has_node(node),
                edges@ == graph@.out(node),
                text@ == head + edges_text(graph@, edges@.subrange(0, k as int)),
            decreases edges.len() - k,
        {
            let ghost before = text@;
            let ghost done = edges@.subrange(0, k as int);
            let target = edges[k].0;
            let weight = edges[k].1;
            assert(graph@.has_node(graph@.out(node)[k as int].0));
            if k > 0 {
                text.append(", ");
            }
            text.append("\"");
            text.append("Node ");
            text.append(display_id(graph.node(target).id()).as_str());
            if weight > 0 {
                text.append(" - Weight: ");
                text.append(decimal_string(weight).as_str());
            }
            text.append("\"");
            proof {
                let now = edges@.subrange(0, k + 1);
                assert(now.drop_last() =~= done);
                assert(now.last() == edges@[k as int]);
                assert(text@ =~= head + edges_text(graph@, now));
            }
            k = k + 1;
        }
        assert(edges@.subrange(0, k as int) =~= edges@);
        text.append("]");
        text
    }
}

} // verus!
