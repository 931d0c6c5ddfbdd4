use vstd::prelude::*;
use petgraph::graphmap::GraphMap;
use petgraph::visit::{Dfs, EdgeFiltered};
use petgraph::Directed;

verus! {

/// A node of a portal graph, as petgraph keys it: a tag for the kind of node and two numbers.
pub type NodeKey = (u8, u64, u64);

/// A directed `petgraph` graph keyed by `NodeKey`, whose edges carry a number.
pub type KeyGraph = GraphMap<NodeKey, u64, Directed>;

#[verifier::external_type_specification]
#[verifier::external_body]
#[verifier::reject_recursive_types(N)]
#[verifier::reject_recursive_types(E)]
#[verifier::reject_recursive_types(Ty)]
pub struct ExGraphMap<N, E, Ty>(GraphMap<N, E, Ty>);

#[verifier::external_type_specification]
#[verifier::external_body]
pub struct ExDirected(Directed);

/// The nodes that a `KeyGraph` holds.
pub uninterp spec fn graph_nodes(g: GraphMap<(u8, u64, u64), u64, Directed>) -> Set<(u8, u64, u64)>;

/// The edges that a `KeyGraph` holds, from first node to second node, with their numbers.
pub uninterp spec fn graph_edges(g: GraphMap<(u8, u64, u64), u64, Directed>) -> Map<
    ((u8, u64, u64), (u8, u64, u64)),
    u64,
>;

/// For each node of a `KeyGraph`, the nodes that its adjacency list records as having an edge
/// into it.
pub uninterp spec fn graph_incoming(g: GraphMap<(u8, u64, u64), u64, Directed>) -> Map<
    (u8, u64, u64),
    Set<(u8, u64, u64)>,
>;

/// The record of incoming edges after `add_edge` adds a new edge from `a` to `b`: `a` gets a
/// (possibly empty) record, and `b` records `a` unless the edge is a loop.
pub open spec fn incoming_added(inc: Map<NodeKey, Set<NodeKey>>, a: NodeKey, b: NodeKey) -> Map<
    NodeKey,
    Set<NodeKey>,
> {
    let inc1 = if inc.contains_key(a) {
        inc
    } else {
        inc.insert(a, Set::empty())
    };
    if a == b {
        inc1
    } else {
        inc1.insert(
            b,
            (if inc1.contains_key(b) {
                inc1[b]
            } else {
                Set::empty()
            }).insert(a),
        )
    }
}

/// The record of incoming edges after `remove_edge` takes out the edge from `a` to `b`.
pub open spec fn incoming_removed(inc: Map<NodeKey, Set<NodeKey>>, a: NodeKey, b: NodeKey) -> Map<
    NodeKey,
    Set<NodeKey>,
> {
    if a != b && inc.contains_key(b) {
        inc.insert(b, inc[b].remove(a))
    } else {
        inc
    }
}

/// `p` is a walk along the edges of `e`.
pub open spec fn key_path(e: Map<(NodeKey, NodeKey), u64>, p: Seq<NodeKey>) -> bool {
    &&& p.len() >= 1
    &&& forall|i: int, j: int|
        #![trigger p[i], p[j]]
        0 <= i && j == i + 1 && j < p.len() ==> e.contains_key((p[i], p[j]))
}

/// `b` can be reached from `a` along the edges of `e` (every node reaches itself).
pub open spec fn key_reachable(e: Map<(NodeKey, NodeKey), u64>, a: NodeKey, b: NodeKey) -> bool {
    exists|p: Seq<NodeKey>| #[trigger] key_path(e, p) && p[0] == a && p.last() == b
}

/// The number on the edge from `a` to `b`, if there is one.
pub open spec fn edge_lookup(e: Map<(NodeKey, NodeKey), u64>, a: NodeKey, b: NodeKey) -> Option<u64> {
    if e.contains_key((a, b)) {
        Some(e[(a, b)])
    } else {
        None
    }
}

/// The edges of `e` whose number is not zero.
pub open spec fn nonzero_edges(e: Map<(NodeKey, NodeKey), u64>) -> Map<(NodeKey, NodeKey), u64> {
    Map::new(|k: (NodeKey, NodeKey)| e.contains_key(k) && e[k] != 0, |k: (NodeKey, NodeKey)| e[k])
}

/// Whether an edge with the number `w` carries items: whether it is followed when looking
/// for where items end up.
pub fn carries_items(w: u64) -> (r: bool)
    ensures
        r == (w != 0),
{
    w != 0
}

/// `GraphMap::new`: a graph with no nodes and no edges.
#[verifier::external_body]
pub(crate) fn key_graph_new() -> (r: KeyGraph)
    ensures
        graph_nodes(r).is_empty(),
        graph_edges(r).dom().is_empty(),
        graph_incoming(r).dom().is_empty(),
{
    GraphMap::new()
}

/// `GraphMap::contains_node`: whether `n` is a node of the graph.
#[verifier::external_body]
pub(crate) fn key_graph_contains_node(g: &KeyGraph, n: NodeKey) -> (r: bool)
    ensures
        r == graph_nodes(*g).contains(n),
{
    g.contains_node(n)
}

/// `GraphMap::add_edge`: sets the number on the edge from `a` to `b` to `w`; a new edge also
/// adds its two nodes where missing. Gives back the number the edge had, if any.
#[verifier::external_body]
pub(crate) fn key_graph_add_edge(g: &mut KeyGraph, a: NodeKey, b: NodeKey, w: u64) -> (r: Option<u64>)
    ensures
        graph_edges(*final(g)) == graph_edges(*old(g)).insert((a, b), w),
        graph_nodes(*final(g)) == (if graph_edges(*old(g)).contains_key((a, b)) {
            graph_nodes(*old(g))
        } else {
            graph_nodes(*old(g)).insert(a).insert(b)
        }),
        graph_incoming(*final(g)) == (if graph_edges(*old(g)).contains_key((a, b)) {
            graph_incoming(*old(g))
        } else {
            incoming_added(graph_incoming(*old(g)), a, b)
        }),
        r == edge_lookup(graph_edges(*old(g)), a, b),
{
    g.add_edge(a, b, w)
}

/// `GraphMap::remove_edge`: takes out the edge from `a` to `b`, if there is one, and gives
/// back its number; the nodes stay.
#[verifier::external_body]
pub(crate) fn key_graph_remove_edge(g: &mut KeyGraph, a: NodeKey, b: NodeKey) -> (r: Option<u64>)
    ensures
        graph_edges(*final(g)) == graph_edges(*old(g)).remove((a, b)),
        graph_nodes(*final(g)) == graph_nodes(*old(g)),
        graph_incoming(*final(g)) == incoming_removed(graph_incoming(*old(g)), a, b),
        r == edge_lookup(graph_edges(*old(g)), a, b),
{
    g.remove_edge(a, b)
}

/// `GraphMap::edge_weight`: the number on the edge from `a` to `b`, if there is one.
#[verifier::external_body]
pub(crate) fn key_graph_edge_weight(g: &KeyGraph, a: NodeKey, b: NodeKey) -> (r: Option<u64>)
    ensures
        r == edge_lookup(graph_edges(*g), a, b),
{
    g.edge_weight(a, b).copied()
}

/// `GraphMap::neighbors_directed` with `Incoming`: the nodes that the adjacency list of `a`
/// records as having an edge into it (none where `a` is not a node), each once, in no stated
/// order.
#[verifier::external_body]
pub(crate) fn key_graph_predecessors(g: &KeyGraph, a: NodeKey) -> (preds: Vec<NodeKey>)
    ensures
        preds@.no_duplicates(),
        forall|b: NodeKey|
            #[trigger] preds@.contains(b) == (graph_incoming(*g).contains_key(a)
                && graph_incoming(*g)[a].contains(b)),
{
    g.neighbors_directed(a, petgraph::Incoming).collect::<Vec<NodeKey>>()
}

/// `GraphMap::all_edges`: every edge with its number, each once, in no stated order.
#[verifier::external_body]
pub(crate) fn key_graph_all_edges(g: &KeyGraph) -> (all: Vec<(NodeKey, NodeKey, u64)>)
    ensures
        all@.no_duplicates(),
        forall|a: NodeKey, b: NodeKey, w: u64|
            #[trigger] all@.contains((a, b, w)) == (graph_edges(*g).contains_key((a, b))
                && graph_edges(*g)[(a, b)] == w),
{
    let mut all = Vec::new();
    for (a, b, w) in g.all_edges() {
        all.push((a, b, *w));
    }
    all
}

/// `petgraph::visit::Dfs` from `start` over the graph seen through `EdgeFiltered`, which keeps
/// the edges that `carries_items` accepts: every node that a walk along such edges leads to
/// from `start` (`start` too), each once, in no stated order.
#[verifier::external_body]
pub(crate) fn key_graph_reach_nonzero(g: &KeyGraph, start: NodeKey) -> (reached: Vec<NodeKey>)
    ensures
        reached@.no_duplicates(),
        forall|n: NodeKey|
            #[trigger] reached@.contains(n) == key_reachable(nonzero_edges(graph_edges(*g)), start, n),
{
    let filtered = EdgeFiltered::from_fn(g, |edge: (NodeKey, NodeKey, &u64)| carries_items(*edge.2));
    let mut dfs = Dfs::new(&filtered, start);
    let mut reached = Vec::new();
    while let Some(n) = dfs.next(&filtered) {
        reached.push(n);
    }
    reached
}

/// `petgraph::algo::has_path_connecting`: whether a walk along the edges leads from `from` to
/// `to` (it always does when they are the same node).
#[verifier::external_body]
pub(crate) fn key_graph_has_path(g: &KeyGraph, from: NodeKey, to: NodeKey) -> (connected: bool)
    ensures
        connected == key_reachable(graph_edges(*g), from, to),
{
    petgraph::algo::has_path_connecting(g, from, to, None)
}

} // verus!
