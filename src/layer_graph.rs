//! The directed graph of one layer, held in a petgraph `DiGraph` whose node
//! weights are the ids of the library's nodes, and the few graph facts the
//! rest of the library reasons with.
use graph_cycles::Cycles;
use petgraph::dot::{Config, Dot};
use petgraph::graph::{DiGraph, NodeIndex};
use crate::exceptions::decimal_text;
use vstd::prelude::*;

verus! {

#[verifier::external_type_specification]
#[verifier::external_body]
#[verifier::reject_recursive_types(N)]
#[verifier::reject_recursive_types(E)]
#[verifier::reject_recursive_types(Ty)]
#[verifier::reject_recursive_types(Ix)]
pub struct ExGraph<N, E, Ty, Ix>(petgraph::graph::Graph<N, E, Ty, Ix>);

#[verifier::external_type_specification]
#[verifier::external_body]
pub struct ExDirected(petgraph::Directed);

/// The weights of a graph's nodes, by node index.
pub uninterp spec fn graph_nodes(g: DiGraph<usize, ()>) -> Seq<usize>;

/// The edges of a graph, `(source, target)` by node index, in the order of
/// their insertion.
pub uninterp spec fn graph_edges(g: DiGraph<usize, ()>) -> Seq<(int, int)>;

/// A petgraph index is a `u32`: a graph holds fewer nodes and edges than that.
pub const MAX_GRAPH_ITEMS: usize = 0xffff_ffff;

pub open spec fn has_edge(edges: Seq<(int, int)>, a: int, b: int) -> bool {
    exists|k: int| 0 <= k < edges.len() && #[trigger] edges[k] == (a, b)
}

/// Appending an edge keeps the edges there were, and adds only itself.
pub proof fn lemma_has_edge_push(e: Seq<(int, int)>, x: (int, int), a: int, b: int)
    ensures
        has_edge(e.push(x), a, b) <==> (has_edge(e, a, b) || x == (a, b)),
{
    if has_edge(e, a, b) {
        let k = choose|k: int| 0 <= k < e.len() && #[trigger] e[k] == (a, b);
        assert(e.push(x)[k] == (a, b));
    }
    if x == (a, b) {
        assert(e.push(x)[e.len() as int] == (a, b));
    }
    if has_edge(e.push(x), a, b) {
        let k = choose|k: int| 0 <= k < e.push(x).len() && #[trigger] e.push(x)[k] == (a, b);
        if k < e.len() {
            assert(e[k] == (a, b));
        }
    }
}

/// The nodes of a closed walk are nodes of the graph.
pub proof fn lemma_walk_in_range(e: Seq<(int, int)>, n: nat, c: Seq<int>)
    requires
        edges_in_range(e, n),
        is_closed_walk(e, c),
    ensures
        forall|q: int| 0 <= q < c.len() ==> 0 <= #[trigger] c[q] < n,
{
    assert forall|q: int| 0 <= q < c.len() implies 0 <= #[trigger] c[q] < n by {
        let nxt = if q + 1 < c.len() { c[q + 1] } else { c[0] };
        assert(has_edge(e, c[q], nxt));
        let k = choose|k: int| 0 <= k < e.len() && #[trigger] e[k] == (c[q], nxt);
        assert(0 <= e[k].0 < n);
    }
}

/// Appending an edge not yet present keeps the edges distinct.
pub proof fn lemma_push_new_edge(e: Seq<(int, int)>, x: (int, int))
    requires
        e.no_duplicates(),
        !has_edge(e, x.0, x.1),
    ensures
        e.push(x).no_duplicates(),
{
    let e2 = e.push(x);
    assert forall|i: int, j: int| 0 <= i < e2.len() && 0 <= j < e2.len() && i != j implies e2[i] != e2[j] by {
        if i == e.len() {
            assert(e[j] == e2[j]);
        } else if j == e.len() {
            assert(e[i] == e2[i]);
        } else {
            assert(e[i] != e[j]);
        }
    }
}

/// `c` is a closed walk: each node has an edge to the next, and the last one
/// an edge back to the first.
pub open spec fn is_closed_walk(edges: Seq<(int, int)>, c: Seq<int>) -> bool {
    &&& c.len() >= 1
    &&& forall|k: int| 0 <= k < c.len() - 1 ==> has_edge(edges, #[trigger] c[k], c[k + 1])
    &&& has_edge(edges, c[c.len() - 1], c[0])
}

pub open spec fn is_acyclic(edges: Seq<(int, int)>) -> bool {
    forall|c: Seq<int>| !is_closed_walk(edges, c)
}

/// Every edge joins two nodes of the graph.
pub open spec fn edges_in_range(edges: Seq<(int, int)>, n: nat) -> bool {
    forall|k: int|
        0 <= k < edges.len() ==> 0 <= (#[trigger] edges[k]).0 < n && 0 <= edges[k].1 < n
}

/// Relies on petgraph's `Graph::new`: a graph with no nodes and no edges.
#[verifier::external_body]
pub(crate) fn new_graph() -> (g: DiGraph<usize, ()>)
    ensures
        graph_nodes(g) == Seq::<usize>::empty(),
        graph_edges(g) == Seq::<(int, int)>::empty(),
{
    DiGraph::new()
}

/// Relies on petgraph's `Graph::node_count`: the number of nodes. Every
/// edge of a `Graph` joins two of its nodes (`add_edge` panics otherwise, and
/// removing a node removes its edges).
#[verifier::external_body]
pub(crate) fn node_count(g: &DiGraph<usize, ()>) -> (r: usize)
    ensures
        r == graph_nodes(*g).len(),
        edges_in_range(graph_edges(*g), r as nat),
{
    g.node_count()
}

/// The number of nodes of `g`.
pub fn count_nodes(g: &DiGraph<usize, ()>) -> (r: usize)
    ensures
        r == graph_nodes(*g).len(),
{
    node_count(g)
}

/// Relies on petgraph's `Graph::edge_count`: the number of edges.
#[verifier::external_body]
pub(crate) fn edge_count(g: &DiGraph<usize, ()>) -> (r: usize)
    ensures
        r == graph_edges(*g).len(),
{
    g.edge_count()
}

/// Relies on petgraph's `Graph::node_weight`: the weight of node `a`.
#[verifier::external_body]
pub(crate) fn node_weight(g: &DiGraph<usize, ()>, a: usize) -> (r: usize)
    requires
        a < graph_nodes(*g).len(),
    ensures
        r == graph_nodes(*g)[a as int],
{
    *g.node_weight(NodeIndex::new(a)).unwrap()
}

/// Relies on petgraph's `Graph::add_node`: the node takes the next index; it
/// panics only once the index type is full.
#[verifier::external_body]
pub(crate) fn add_node(g: &mut DiGraph<usize, ()>, weight: usize) -> (r: usize)
    requires
        graph_nodes(*old(g)).len() < MAX_GRAPH_ITEMS,
    ensures
        r == graph_nodes(*old(g)).len(),
        graph_nodes(*final(g)) == graph_nodes(*old(g)).push(weight),
        graph_edges(*final(g)) == graph_edges(*old(g)),
{
    g.add_node(weight).index()
}

/// Relies on petgraph's `Graph::add_edge`: the edge is appended; it panics
/// only on a missing node or once the index type is full.
#[verifier::external_body]
pub(crate) fn add_edge(g: &mut DiGraph<usize, ()>, a: usize, b: usize)
    requires
        a < graph_nodes(*old(g)).len(),
        b < graph_nodes(*old(g)).len(),
        graph_edges(*old(g)).len() < MAX_GRAPH_ITEMS,
    ensures
        graph_nodes(*final(g)) == graph_nodes(*old(g)),
        graph_edges(*final(g)) == graph_edges(*old(g)).push((a as int, b as int)),
{
    g.add_edge(NodeIndex::new(a), NodeIndex::new(b), ());
}

/// Relies on petgraph's `Graph::neighbors`: on a directed graph, the targets
/// of the edges that leave `a`.
#[verifier::external_body]
pub(crate) fn successors(g: &DiGraph<usize, ()>, a: usize) -> (r: Vec<usize>)
    requires
        a < graph_nodes(*g).len(),
    ensures
        forall|k: int| 0 <= k < r.len() ==> has_edge(graph_edges(*g), a as int, #[trigger] r@[k] as int),
        forall|b: int| has_edge(graph_edges(*g), a as int, b) ==> r@.contains(b as usize),
{
    g.neighbors(NodeIndex::new(a)).map(|n| n.index()).collect()
}

/// Relies on petgraph's `Graph::neighbors_directed` with `Incoming`: the
/// sources of the edges that enter `a`.
#[verifier::external_body]
pub(crate) fn predecessors(g: &DiGraph<usize, ()>, a: usize) -> (r: Vec<usize>)
    requires
        a < graph_nodes(*g).len(),
    ensures
        forall|k: int| 0 <= k < r.len() ==> has_edge(graph_edges(*g), #[trigger] r@[k] as int, a as int),
        forall|b: int| has_edge(graph_edges(*g), b, a as int) ==> r@.contains(b as usize),
{
    g.neighbors_directed(NodeIndex::new(a), petgraph::Direction::Incoming).map(|n| n.index()).collect()
}

/// Relies on petgraph's `algo::is_cyclic_directed`: whether the graph
/// contains a cycle.
#[verifier::external_body]
pub(crate) fn is_cyclic(g: &DiGraph<usize, ()>) -> (r: bool)
    ensures
        r == !is_acyclic(graph_edges(*g)),
{
    petgraph::algo::is_cyclic_directed(g)
}

/// Relies on graph_cycles' `Cycles::cycles` (Johnson's algorithm), which
/// finds all cycles: a graph with a cycle gives at least one, and each is
/// listed by its nodes, none twice (a node on the search stack stays
/// blocked), each with an edge to the next and the last with an edge back to
/// the first.
#[verifier::external_body]
pub(crate) fn elementary_cycles(g: &DiGraph<usize, ()>) -> (r: Vec<Vec<usize>>)
    ensures
        !is_acyclic(graph_edges(*g)) ==> r@.len() > 0,
        forall|i: int| 0 <= i < r.len() ==> (#[trigger] r@[i])@.no_duplicates(),
        forall|i: int|
            0 <= i < r.len() ==> is_closed_walk(
                graph_edges(*g),
                (#[trigger] r@[i])@.map_values(|x: usize| x as int),
            ),
{
    g.cycles().into_iter().map(|c| c.into_iter().map(|n| n.index()).collect()).collect()
}

/// The node lines of `Dot`'s text for the first `k` nodes: each node's
/// index, then the attributes at its weight.
pub open spec fn dot_node_lines(nodes: Seq<usize>, attrs: Seq<Seq<char>>, k: int) -> Seq<char>
    decreases k,
{
    if k <= 0 {
        Seq::empty()
    } else {
        dot_node_lines(nodes, attrs, k - 1) + "    "@ + decimal_text((k - 1) as nat) + " [ "@
            + attrs[nodes[k - 1] as int] + "]\n"@
    }
}

/// The edge lines of `Dot`'s text for the first `k` edges, unlabelled.
pub open spec fn dot_edge_lines(edges: Seq<(int, int)>, k: int) -> Seq<char>
    decreases k,
{
    if k <= 0 {
        Seq::empty()
    } else {
        dot_edge_lines(edges, k - 1) + "    "@ + decimal_text(edges[k - 1].0 as nat) + " -> "@
            + decimal_text(edges[k - 1].1 as nat) + " [ ]\n"@
    }
}

/// What petgraph's `Dot`, without node or edge labels, writes for a
/// directed graph with these node weights and edges, each node given the
/// attributes at its weight: the nodes in index order, then the edges in
/// the order of their insertion.
pub open spec fn dot_of(nodes: Seq<usize>, edges: Seq<(int, int)>, attrs: Seq<Seq<char>>) -> Seq<char> {
    "digraph {\n"@ + dot_node_lines(nodes, attrs, nodes.len() as int) + dot_edge_lines(edges, edges.len() as int)
        + "}\n"@
}

/// Relies on petgraph's `Dot::with_attr_getters` and its `Debug` output
/// (`Dot::graph_fmt`): the graph in Graphviz's language, each node given the
/// attributes of `attrs` at its weight.
#[verifier::external_body]
pub(crate) fn dot_text(g: &DiGraph<usize, ()>, attrs: &Vec<String>) -> (r: String)
    requires
        forall|k: int| 0 <= k < graph_nodes(*g).len() ==> #[trigger] graph_nodes(*g)[k] < attrs.len(),
    ensures
        r@ == dot_of(graph_nodes(*g), graph_edges(*g), attrs@.map_values(|a: String| a@)),
{
    format!(
        "{:?}",
        Dot::with_attr_getters(
            g,
            &[Config::EdgeNoLabel, Config::NodeNoLabel],
            &|_, _| String::new(),
            &|_, (_, w)| attrs[*w].clone(),
        )
    )
}

} // verus!
