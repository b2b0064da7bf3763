//! The directed graph that stores the lexicon's prefix tree.
//!
//! The graph itself is `petgraph`'s. Verus cannot look inside it, so this
//! module names what the graph holds and states, for each operation the
//! prefix tree uses, how that operation changes it. Everything in this
//! module is trusted; everything built on it is proved.

use petgraph::graph::Graph;
use petgraph::graph::NodeIndex;
use petgraph::visit::EdgeRef;
use petgraph::Directed;
use vstd::prelude::*;

verus! {

/// `petgraph::Directed`, the marker of a graph whose edges have a
/// direction.
#[verifier::external_type_specification]
#[verifier::external_body]
pub struct ExDirected(Directed);

/// `petgraph::graph::Graph`. Nothing of its inside is known to the
/// proofs but what the functions below state.
#[verifier::external_type_specification]
#[verifier::external_body]
#[verifier::reject_recursive_types(N)]
#[verifier::reject_recursive_types(E)]
#[verifier::reject_recursive_types(Ty)]
#[verifier::reject_recursive_types(Ix)]
pub struct ExGraph<N, E, Ty, Ix>(Graph<N, E, Ty, Ix>);

/// The flags of the graph's nodes, in index order.
pub uninterp spec fn node_flags(g: Graph<bool, char, Directed, u32>) -> Seq<bool>;

/// The graph's edges in index order, each as (source, target, letter).
pub uninterp spec fn edge_list(g: Graph<bool, char, Directed, u32>) -> Seq<(u32, u32, char)>;

/// The test for an edge that leaves node `a`.
pub open spec fn leaves(a: u32) -> spec_fn((u32, u32, char)) -> bool {
    |e: (u32, u32, char)| e.0 == a
}

/// The edges that leave node `a`, each as (target, letter), in the order
/// of `edges`.
pub open spec fn edges_from(edges: Seq<(u32, u32, char)>, a: u32) -> Seq<(u32, char)> {
    edges.filter(leaves(a)).map_values(|e: (u32, u32, char)| (e.1, e.2))
}

/// Whether some edge leads from `a` to `b`.
pub open spec fn joined(edges: Seq<(u32, u32, char)>, a: u32, b: u32) -> bool {
    exists|e: int| 0 <= e < edges.len() && (#[trigger] edges[e]).0 == a && edges[e].1 == b
}

/// `Graph::new`: a graph without nodes or edges.
#[verifier::external_body]
pub(crate) fn graph_new() -> (g: Graph<bool, char, Directed, u32>)
    ensures
        node_flags(g) == Seq::<bool>::empty(),
        edge_list(g) == Seq::<(u32, u32, char)>::empty(),
{
    Graph::new()
}

/// `Graph::node_count`: the number of nodes.
#[verifier::external_body]
pub(crate) fn graph_node_count(g: &Graph<bool, char, Directed, u32>) -> (n: usize)
    ensures
        n == node_flags(*g).len(),
{
    g.node_count()
}

/// `Graph::edge_count`: the number of edges.
#[verifier::external_body]
pub(crate) fn graph_edge_count(g: &Graph<bool, char, Directed, u32>) -> (n: usize)
    ensures
        n == edge_list(*g).len(),
{
    g.edge_count()
}

/// `Graph::add_node`: appends a node carrying `flag` and returns its index,
/// which is the number of nodes before the call. The edges stay as they were.
/// The graph refuses a node whose index would be `u32::MAX`.
#[verifier::external_body]
pub(crate) fn graph_add_node(g: &mut Graph<bool, char, Directed, u32>, flag: bool) -> (node: u32)
    requires
        node_flags(*old(g)).len() < u32::MAX,
    ensures
        node_flags(*final(g)) == node_flags(*old(g)).push(flag),
        edge_list(*final(g)) == edge_list(*old(g)),
        node == node_flags(*old(g)).len(),
{
    g.add_node(flag).index() as u32
}

/// `Graph::update_edge`: where an edge already leads from `a` to `b`, one
/// such edge gets the letter; otherwise a new edge from `a` to `b` with
/// the letter is appended. The nodes stay as they were. Both nodes must
/// exist, and the graph refuses an edge whose index would be `u32::MAX`.
#[verifier::external_body]
pub(crate) fn graph_update_edge(
    g: &mut Graph<bool, char, Directed, u32>,
    a: u32,
    b: u32,
    letter: char,
)
    requires
        a < node_flags(*old(g)).len(),
        b < node_flags(*old(g)).len(),
        edge_list(*old(g)).len() < u32::MAX,
    ensures
        node_flags(*final(g)) == node_flags(*old(g)),
        joined(edge_list(*old(g)), a, b) ==> exists|e: int|
            0 <= e < edge_list(*old(g)).len() && (#[trigger] edge_list(*old(g))[e]).0 == a
                && edge_list(*old(g))[e].1 == b && edge_list(*final(g)) == edge_list(
                *old(g),
            ).update(e, (a, b, letter)),
        !joined(edge_list(*old(g)), a, b) ==> edge_list(*final(g)) == edge_list(*old(g)).push(
            (a, b, letter),
        ),
{
    g.update_edge(NodeIndex::new(a as usize), NodeIndex::new(b as usize), letter);
}

/// `Graph::edges`: the edges that leave node `a`, each exactly once and
/// as (target, letter); none if there is no such node. The order in which
/// the graph hands them out is left open.
#[verifier::external_body]
pub(crate) fn graph_out_edges(g: &Graph<bool, char, Directed, u32>, a: u32) -> (out: Vec<
    (u32, char),
>)
    ensures
        out@.to_multiset() == edges_from(edge_list(*g), a).to_multiset(),
{
    g.edges(NodeIndex::new(a as usize)).map(|e| (e.target().index() as u32, *e.weight())).collect()
}

/// `Graph::node_weight`: the flag of node `a`, or `None` if there is no
/// such node.
#[verifier::external_body]
pub(crate) fn graph_node_weight(g: &Graph<bool, char, Directed, u32>, a: u32) -> (flag: Option<
    bool,
>)
    ensures
        flag == if a < node_flags(*g).len() {
            Some(node_flags(*g)[a as int])
        } else {
            None
        },
{
    g.node_weight(NodeIndex::new(a as usize)).copied()
}

/// `Graph::node_weight_mut`: a reference to the flag of node `a`, through
/// which that flag and nothing else of the graph can be changed; `None`,
/// and the graph unchanged, if there is no such node.
#[verifier::external_body]
pub(crate) fn graph_node_weight_mut(g: &mut Graph<bool, char, Directed, u32>, a: u32) -> (flag:
    Option<&mut bool>)
    ensures
        a < node_flags(*old(g)).len() ==> flag is Some && *flag->0 == node_flags(*old(g))[a as int]
            && node_flags(*final(g)) == node_flags(*old(g)).update(a as int, *final(flag->0)),
        a >= node_flags(*old(g)).len() ==> flag is None && node_flags(*final(g)) == node_flags(
            *old(g),
        ),
        edge_list(*final(g)) == edge_list(*old(g)),
{
    g.node_weight_mut(NodeIndex::new(a as usize))
}

} // verus!
