use vstd::prelude::*;
use std::collections::HashMap;
use std::collections::HashSet;
use std::hash::Hash;
use vstd::std_specs::hash::obeys_key_model;

verus! {

broadcast use vstd::std_specs::hash::group_hash_axioms, vstd::seq_lib::group_seq_properties;

/// The edge labels of a list of `(node, edge)` pairs, in order.
pub open spec fn edge_labels<N, E>(ps: Seq<(N, E)>) -> Seq<E> {
    ps.map_values(|p: (N, E)| p.1)
}

/// The labels of the pairs of `ps` whose node is `n`, in order.
pub open spec fn edges_at<N, E>(ps: Seq<(N, E)>, n: N) -> Seq<E>
    decreases ps.len(),
{
    if ps.len() == 0 {
        Seq::empty()
    } else {
        let rest = edges_at(ps.drop_last(), n);
        if ps.last().0 == n {
            rest.push(ps.last().1)
        } else {
            rest
        }
    }
}

/// Every label picked out by `edges_at` is a label of the list.
pub proof fn lemma_edges_at_labels<N, E>(ps: Seq<(N, E)>, n: N)
    ensures
        forall|k: int|
            0 <= k < edges_at(ps, n).len() ==> edge_labels(ps).contains(
                #[trigger] edges_at(ps, n)[k],
            ),
    decreases ps.len(),
{
    if ps.len() > 0 {
        let init = ps.drop_last();
        lemma_edges_at_labels(init, n);
        assert forall|k: int| 0 <= k < edges_at(ps, n).len() implies edge_labels(ps).contains(
            #[trigger] edges_at(ps, n)[k],
        ) by {
            let x = edges_at(ps, n)[k];
            if k < edges_at(init, n).len() {
                assert(x == edges_at(init, n)[k]);
                let w = choose|w: int| 0 <= w < edge_labels(init).len() && edge_labels(init)[w] == x;
                assert(edge_labels(ps)[w] == x);
            } else {
                assert(x == ps.last().1);
                assert(edge_labels(ps)[ps.len() - 1] == x);
            }
        }
    }
}

/// No label occurs twice in `es`, and none is already a key of `edges`.
pub open spec fn fresh_edges<N, E>(edges: Map<E, N>, es: Seq<E>) -> bool {
    &&& forall|i: int, j: int| 0 <= i < j < es.len() ==> es[i] != es[j]
    &&& forall|i: int| 0 <= i < es.len() ==> !edges.contains_key(#[trigger] es[i])
}

/// `g1` is `g0` with the node `val` inserted (see `Graph::insert_node`): each source of
/// `incoming` gains its edges to `val` after its own, `val`'s list becomes the labels of
/// `outgoing`, and the new labels lead to `val` and to the targets of `outgoing`.
pub open spec fn node_inserted<N, E>(
    g0: Graph<N, E>,
    g1: Graph<N, E>,
    val: N,
    incoming: Seq<(N, E)>,
    outgoing: Seq<(N, E)>,
) -> bool {
    &&& g1.nodes@.dom() == g0.nodes@.dom().insert(val)
    &&& forall|n: N|
        g0.has_node(n) && n != val ==> #[trigger] g1.out_edges(n) == g0.out_edges(n) + edges_at(
            incoming,
            n,
        )
    &&& g1.out_edges(val) == edge_labels(outgoing)
    &&& forall|e: E|
        #[trigger] g1.edges@.contains_key(e) <==> g0.edges@.contains_key(e) || edge_labels(
            incoming,
        ).contains(e) || edge_labels(outgoing).contains(e)
    &&& forall|e: E| g0.edges@.contains_key(e) ==> #[trigger] g1.edges@[e] == g0.edges@[e]
    &&& forall|i: int| 0 <= i < incoming.len() ==> g1.edges@[#[trigger] incoming[i].1] == val
    &&& forall|i: int|
        0 <= i < outgoing.len() ==> g1.edges@[#[trigger] outgoing[i].1] == outgoing[i].0
}

/// The label of a pair is among the labels that `edges_at` picks for its node.
pub proof fn lemma_edges_at_contains<N, E>(ps: Seq<(N, E)>, i: int)
    requires
        0 <= i < ps.len(),
    ensures
        edges_at(ps, ps[i].0).contains(ps[i].1),
    decreases ps.len(),
{
    let n = ps[i].0;
    if i == ps.len() - 1 {
        assert(edges_at(ps, n) == edges_at(ps.drop_last(), n).push(ps[i].1));
        assert(edges_at(ps, n)[edges_at(ps, n).len() - 1] == ps[i].1);
    } else {
        let init = ps.drop_last();
        assert(init[i] == ps[i]);
        lemma_edges_at_contains(init, i);
        let w = choose|w: int| 0 <= w < edges_at(init, n).len() && edges_at(init, n)[w] == ps[i].1;
        if ps.last().0 == n {
            assert(edges_at(ps, n)[w] == ps[i].1);
        } else {
            assert(edges_at(ps, n) == edges_at(init, n));
        }
    }
}

/// Inserting a node links it in: each of its incoming sources (other than itself) has an
/// edge to it, it has an edge to each of its outgoing targets, and so each such source
/// reaches each such target.
pub proof fn law_inserted_node_links<N, E>(
    g0: Graph<N, E>,
    g1: Graph<N, E>,
    val: N,
    incoming: Seq<(N, E)>,
    outgoing: Seq<(N, E)>,
    i: int,
    j: int,
)
    requires
        node_inserted(g0, g1, val, incoming, outgoing),
        0 <= i < incoming.len(),
        g0.has_node(incoming[i].0),
        incoming[i].0 != val,
        0 <= j < outgoing.len(),
    ensures
        g1.step(incoming[i].0, val),
        g1.step(val, outgoing[j].0),
        g1.reachable(incoming[i].0, outgoing[j].0),
{
    let n = incoming[i].0;
    let base = g0.out_edges(n);
    lemma_edges_at_contains(incoming, i);
    let w = choose|w: int| 0 <= w < edges_at(incoming, n).len() && edges_at(incoming, n)[w] == incoming[i].1;
    assert(g1.out_edges(n) == base + edges_at(incoming, n));
    assert(g1.out_edges(n)[base.len() + w] == incoming[i].1);
    assert(g1.successors(n)[base.len() + w] == val);
    assert(g1.nodes@.dom().contains(n));
    assert(g1.nodes@.dom().contains(val));
    assert(g1.out_edges(val)[j] == outgoing[j].1);
    assert(g1.successors(val)[j] == outgoing[j].0);
    assert(g1.step(val, outgoing[j].0));
    let p = seq![n, val, outgoing[j].0];
    assert(g1.is_path(p)) by {
        assert forall|k: int| 0 <= k < p.len() - 1 implies #[trigger] g1.step(p[k], p[k + 1]) by {
            if k == 0 {
                assert(p[0] == n && p[1] == val);
            } else {
                assert(p[1] == val && p[2] == outgoing[j].0);
            }
        }
    }
}

/// A directed graph whose edges carry labels: each node lists the labels of its outgoing
/// edges, and each label names the node that its edge leads to.
#[derive(Clone)]
pub struct Graph<N, E> {
    pub nodes: HashMap<N, Vec<E>>,
    pub edges: HashMap<E, N>,
}

impl<N, E> Graph<N, E> {
    pub open spec fn has_node(&self, n: N) -> bool {
        self.nodes@.contains_key(n)
    }

    /// The labels of the edges leaving `n`, in the order in which they were added.
    pub open spec fn out_edges(&self, n: N) -> Seq<E> {
        self.nodes@[n]@
    }

    /// Every edge listed by a node leads somewhere.
    pub open spec fn wf(&self) -> bool {
        forall|n: N, i: int|
            #![trigger self.out_edges(n)[i]]
            self.has_node(n) && 0 <= i < self.out_edges(n).len() ==> self.edges@.contains_key(
                self.out_edges(n)[i],
            )
    }

    /// Every edge listed by the node `n` leads somewhere.
    pub open spec fn node_wf(&self, n: N) -> bool {
        forall|i: int|
            #![trigger self.out_edges(n)[i]]
            0 <= i < self.out_edges(n).len() ==> self.edges@.contains_key(self.out_edges(n)[i])
    }

    /// The nodes that the edges leaving `n` lead to, in the order of `out_edges(n)`.
    pub open spec fn successors(&self, n: N) -> Seq<N> {
        self.out_edges(n).map_values(|e: E| self.edges@[e])
    }

    /// There is an edge from `a` to `b`.
    pub open spec fn step(&self, a: N, b: N) -> bool {
        self.has_node(a) && self.successors(a).contains(b)
    }

    /// `p` is a walk along edges of the graph.
    pub open spec fn is_path(&self, p: Seq<N>) -> bool {
        &&& p.len() >= 1
        &&& forall|i: int| 0 <= i < p.len() - 1 ==> #[trigger] self.step(p[i], p[i + 1])
    }

    /// `b` can be reached from `a` by following edges (every node reaches itself).
    pub open spec fn reachable(&self, a: N, b: N) -> bool {
        exists|p: Seq<N>| #[trigger] self.is_path(p) && p[0] == a && p.last() == b
    }

    /// Every member of `seen` is a node, and each one outside `open` has all its
    /// successors in `seen`.
    pub open spec fn closed_except(&self, seen: Set<N>, open: Set<N>) -> bool {
        &&& forall|u: N| #[trigger] seen.contains(u) ==> self.has_node(u)
        &&& forall|u: N, k: int|
            #![trigger seen.contains(u), self.successors(u)[k]]
            seen.contains(u) && !open.contains(u) && 0 <= k < self.successors(u).len()
                ==> seen.contains(self.successors(u)[k])
    }
}

/// Every node reaches itself.
pub proof fn lemma_reaches_itself<N, E>(g: Graph<N, E>, a: N)
    ensures
        g.reachable(a, a),
{
    let p = seq![a];
    assert(g.is_path(p));
}

/// A walk can be extended by one more edge at its end.
pub proof fn lemma_reach_then_step<N, E>(g: Graph<N, E>, a: N, b: N, c: N)
    requires
        g.reachable(a, b),
        g.step(b, c),
    ensures
        g.reachable(a, c),
{
    let p = choose|p: Seq<N>| #[trigger] g.is_path(p) && p[0] == a && p.last() == b;
    let q = p.push(c);
    assert forall|i: int| 0 <= i < q.len() - 1 implies #[trigger] g.step(q[i], q[i + 1]) by {
        if i < p.len() - 1 {
            assert(q[i] == p[i] && q[i + 1] == p[i + 1]);
        }
    }
    assert(g.is_path(q));
}

/// A walk can be extended by one more edge at its start.
pub proof fn lemma_step_then_reach<N, E>(g: Graph<N, E>, a: N, b: N, c: N)
    requires
        g.step(a, b),
        g.reachable(b, c),
    ensures
        g.reachable(a, c),
{
    let p = choose|p: Seq<N>| #[trigger] g.is_path(p) && p[0] == b && p.last() == c;
    let q = seq![a] + p;
    assert forall|i: int| 0 <= i < q.len() - 1 implies #[trigger] g.step(q[i], q[i + 1]) by {
        if i > 0 {
            let j = i - 1;
            assert(q[i] == p[j] && q[i + 1] == p[j + 1]);
        } else {
            assert(q[0] == a && q[1] == p[0]);
        }
    }
    assert(g.is_path(q));
}

/// A set of nodes that holds all successors of its members holds every node of a walk
/// that starts in it.
pub proof fn lemma_closed_holds_walk<N, E>(g: Graph<N, E>, seen: Set<N>, p: Seq<N>, k: int)
    requires
        g.closed_except(seen, Set::empty()),
        g.is_path(p),
        seen.contains(p[0]),
        0 <= k < p.len(),
    ensures
        seen.contains(p[k]),
    decreases k,
{
    if k > 0 {
        lemma_closed_holds_walk(g, seen, p, k - 1);
        let j = k - 1;
        assert(g.step(p[j], p[j + 1]));
        let w = choose|w: int|
            0 <= w < g.successors(p[k - 1]).len() && #[trigger] g.successors(p[k - 1])[w] == p[k];
        assert(seen.contains(g.successors(p[k - 1])[w]));
    }
}

/// A set of nodes that holds all successors of its members holds everything that its
/// members reach.
pub proof fn lemma_closed_holds_reachable<N, E>(g: Graph<N, E>, seen: Set<N>, a: N, b: N)
    requires
        g.closed_except(seen, Set::empty()),
        seen.contains(a),
        g.reachable(a, b),
    ensures
        seen.contains(b),
{
    let p = choose|p: Seq<N>| #[trigger] g.is_path(p) && p[0] == a && p.last() == b;
    lemma_closed_holds_walk(g, seen, p, p.len() - 1);
}

/// A node of a graph, seen from the graph that holds it.
pub struct Node<'a, N, E> {
    pub val: N,
    graph: &'a Graph<N, E>,
}

impl<'a, N, E> Node<'a, N, E> {
    /// The graph that this node belongs to.
    pub closed spec fn graph(&self) -> Graph<N, E> {
        *self.graph
    }

    /// The node's value (its `val` field).
    pub closed spec fn value(&self) -> N {
        self.val
    }
}

impl<'a, N, E> Node<'a, N, E> where N: Hash + Eq + Copy, E: Hash + Eq + Copy {
    /// The nodes that the edges leaving this node lead to, one per edge, in order.
    pub fn neighbors(&'a self) -> (r: Vec<Node<'a, N, E>>)
        requires
            obeys_key_model::<N>(),
            obeys_key_model::<E>(),
            self.graph().node_wf(self.value()),
            self.graph().has_node(self.value()),
        ensures
            r@.len() == self.graph().out_edges(self.value()).len(),
            forall|i: int|
                0 <= i < r@.len() ==> (#[trigger] r@[i]).value() == self.graph().successors(
                    self.value(),
                )[i] && r@[i].graph() == self.graph(),
    {
        let graph: &'a Graph<N, E> = self.graph;
        let out = graph.nodes.get(&self.val).unwrap();
        let mut r: Vec<Node<'a, N, E>> = Vec::new();
        let mut i: usize = 0;
        while i < out.len()
            invariant
                obeys_key_model::<N>(),
                obeys_key_model::<E>(),
                graph.node_wf(self.val),
                graph.has_node(self.val),
                *graph == self.graph(),
                out@ == graph.out_edges(self.val),
                i <= out@.len(),
                r@.len() == i,
                forall|k: int|
                    0 <= k < i ==> (#[trigger] r@[k]).value() == graph.successors(self.val)[k]
                        && r@[k].graph() == *graph,
            decreases out@.len() - i,
        {
            let e = out[i];
            assert(graph.edges@.contains_key(graph.out_edges(self.val)[i as int]));
            let target = *graph.edges.get(&e).unwrap();
            r.push(Node { val: target, graph });
            i += 1;
        }
        r
    }

    /// Whether `target` can be reached from this node by following edges.
    pub fn connected_to(&self, target: N) -> (r: bool)
        requires
            obeys_key_model::<N>(),
            obeys_key_model::<E>(),
            vstd::laws_eq::obeys_concrete_eq::<N>(),
            forall|u: N|
                #[trigger] self.graph().reachable(self.value(), u) && u != target
                    ==> self.graph().has_node(u) && self.graph().node_wf(u),
        ensures
            r == self.graph().reachable(self.value(), target),
    {
        let mut seen: HashSet<N> = HashSet::new();
        proof {
            lemma_reaches_itself(self.graph(), self.val);
            assert forall|u: N| #[trigger] self.graph().reachable(self.val, u) && u != target
                implies self.graph().has_node(u) && self.graph().node_wf(u) by {
                assert(self.graph().reachable(self.value(), u));
            }
        }
        let r = self.connected_to_helper(target, &mut seen, Ghost(self.val), Ghost(Set::empty()));
        proof {
            if !r && self.graph().reachable(self.val, target) {
                lemma_closed_holds_reachable(self.graph(), seen@, self.val, target);
            }
        }
        r
    }

    /// The search behind `connected_to`: `seen` holds the nodes visited so far, and
    /// `open` those among them whose successors are still being searched.
    fn connected_to_helper(
        &self,
        target: N,
        seen: &mut HashSet<N>,
        Ghost(start): Ghost<N>,
        Ghost(open): Ghost<Set<N>>,
    ) -> (r: bool)
        requires
            obeys_key_model::<N>(),
            obeys_key_model::<E>(),
            vstd::laws_eq::obeys_concrete_eq::<N>(),
            self.graph().reachable(start, self.val),
            forall|u: N|
                #[trigger] self.graph().reachable(start, u) && u != target
                    ==> self.graph().has_node(u) && self.graph().node_wf(u),
            !old(seen)@.contains(target),
            open.subset_of(old(seen)@),
            self.graph().closed_except(old(seen)@, open),
        ensures
            r ==> self.graph().reachable(self.val, target),
            !r ==> {
                &&& old(seen)@.subset_of(final(seen)@)
                &&& final(seen)@.contains(self.val)
                &&& !final(seen)@.contains(target)
                &&& self.graph().closed_except(final(seen)@, open)
            },
        decreases self.graph().nodes@.dom().len() - old(seen)@.len(),
    {
        let ghost g = self.graph();
        proof {
            reveal(vstd::laws_eq::obeys_concrete_eq);
        }
        let v = self.val;
        if v == target {
            proof {
                lemma_reaches_itself(g, v);
            }
            return true;
        }
        if seen.contains(&v) {
            return false;
        }
        let ghost entry = seen@;
        seen.insert(v);
        let ghost open2 = open.insert(v);
        proof {
            assert(g.has_node(v));
            assert(g.nodes@.dom().finite());
            assert(entry.subset_of(g.nodes@.dom()));
            vstd::set_lib::lemma_len_subset(entry, g.nodes@.dom());
        }
        let ns = self.neighbors();
        let mut i: usize = 0;
        while i < ns.len()
            invariant
                obeys_key_model::<N>(),
                obeys_key_model::<E>(),
                vstd::laws_eq::obeys_concrete_eq::<N>(),
                g == self.graph(),
                v == self.val,
                g.has_node(v),
                g.reachable(start, v),
                forall|u: N| #[trigger] g.reachable(start, u) && u != target ==> g.has_node(u)
                    && g.node_wf(u),
                ns@.len() == g.out_edges(v).len(),
                forall|k: int|
                    0 <= k < ns@.len() ==> (#[trigger] ns@[k]).value() == g.successors(v)[k]
                        && ns@[k].graph() == g,
                i <= ns@.len(),
                entry.insert(v).subset_of(seen@),
                !entry.contains(v),
                open.subset_of(entry),
                g.nodes@.dom().finite(),
                entry.finite(),
                entry == old(seen)@,
                entry.len() <= g.nodes@.dom().len(),
                !seen@.contains(target),
                g.closed_except(seen@, open2),
                open2 == open.insert(v),
                forall|k: int| 0 <= k < i ==> seen@.contains(#[trigger] g.successors(v)[k]),
            decreases ns@.len() - i,
        {
            let ghost w = g.successors(v)[i as int];
            proof {
                assert(g.step(v, w));
                lemma_reach_then_step(g, start, v, w);
                vstd::set_lib::lemma_len_subset(seen@, g.nodes@.dom());
                vstd::set_lib::lemma_len_subset(entry.insert(v), seen@);
                assert(entry.insert(v).len() == entry.len() + 1);
                assert(ns@[i as int].graph() == g);
            }
            let found = ns[i].connected_to_helper(target, seen, Ghost(start), Ghost(open2));
            if found {
                proof {
                    lemma_step_then_reach(g, v, w, target);
                }
                return true;
            }
            i += 1;
        }
        proof {
            assert forall|u: N, k: int|
                #![trigger seen@.contains(u), g.successors(u)[k]]
                seen@.contains(u) && !open.contains(u) && 0 <= k < g.successors(u).len()
                    implies seen@.contains(g.successors(u)[k]) by {
                if u != v {
                    assert(!open2.contains(u));
                }
            }
        }
        false
    }
}

impl<N, E> Graph<N, E> where N: Hash + Eq + Copy, E: Hash + Eq + Copy {
    pub fn new() -> (g: Self)
        ensures
            g.nodes@ == Map::<N, Vec<E>>::empty(),
            g.edges@ == Map::<E, N>::empty(),
            g.wf(),
    {
        Graph { nodes: HashMap::new(), edges: HashMap::new() }
    }

    /// Adds the node `val`, with an edge from each `(n, e)` of `incoming` (labelled `e`,
    /// from `n` to `val`) and an edge from `val` to `n` labelled `e` for each `(n, e)` of
    /// `outgoing`, in order. The outgoing edges become all of `val`'s list.
    pub fn insert_node(&mut self, val: N, incoming: Vec<(N, E)>, outgoing: Vec<(N, E)>)
        requires
            obeys_key_model::<N>(),
            obeys_key_model::<E>(),
            forall|i: int| 0 <= i < incoming@.len() ==> old(self).has_node(#[trigger] incoming@[i].0),
            fresh_edges(old(self).edges@, edge_labels(incoming@) + edge_labels(outgoing@)),
        ensures
            node_inserted(*old(self), *final(self), val, incoming@, outgoing@),
            old(self).wf() ==> final(self).wf(),
    {
        let ghost old_self = *self;
        let ghost labels = edge_labels(incoming@) + edge_labels(outgoing@);
        let mut i: usize = 0;
        while i < incoming.len()
            invariant
                obeys_key_model::<N>(),
                obeys_key_model::<E>(),
                i <= incoming@.len(),
                labels == edge_labels(incoming@) + edge_labels(outgoing@),
                forall|k: int|
                    0 <= k < incoming@.len() ==> old_self.has_node(#[trigger] incoming@[k].0),
                fresh_edges(old_self.edges@, labels),
                self.nodes@.dom() == old_self.nodes@.dom(),
                forall|n: N|
                    old_self.has_node(n) ==> #[trigger] self.out_edges(n) == old_self.out_edges(n)
                        + edges_at(incoming@.take(i as int), n),
                forall|e: E|
                    #[trigger] self.edges@.contains_key(e) <==> old_self.edges@.contains_key(e)
                        || edge_labels(incoming@.take(i as int)).contains(e),
                forall|e: E|
                    old_self.edges@.contains_key(e) ==> #[trigger] self.edges@[e]
                        == old_self.edges@[e],
                forall|k: int| 0 <= k < i ==> self.edges@[#[trigger] incoming@[k].1] == val,
            decreases incoming@.len() - i,
        {
            let (n, e) = incoming[i];
            let ghost before = *self;
            let mut list = self.nodes.remove(&n).unwrap();
            list.push(e);
            self.nodes.insert(n, list);
            self.edges.insert(e, val);
            proof {
                let t0 = incoming@.take(i as int);
                let t1 = incoming@.take(i + 1);
                assert(t1.drop_last() =~= t0);
                assert(edge_labels(t1) =~= edge_labels(t0).push(e));
                assert(labels[i as int] == e);
                assert(!old_self.edges@.contains_key(e));
                assert forall|k: int| 0 <= k < i implies incoming@[k].1 != e by {
                    assert(labels[k] == incoming@[k].1);
                }
                assert(!edge_labels(t0).contains(e)) by {
                    if edge_labels(t0).contains(e) {
                        let k = choose|k: int| 0 <= k < edge_labels(t0).len() && edge_labels(t0)[k] == e;
                        assert(incoming@[k].1 == e);
                    }
                }
                assert(t1.last() == incoming@[i as int]);
                assert forall|m: N| old_self.has_node(m) implies #[trigger] self.out_edges(m)
                    == old_self.out_edges(m) + edges_at(t1, m) by {
                    assert(before.out_edges(m) == old_self.out_edges(m) + edges_at(t0, m));
                    if m == n {
                        assert(edges_at(t1, m) == edges_at(t0, m).push(e));
                        assert(self.out_edges(m) =~= before.out_edges(m).push(e));
                        assert(self.out_edges(m) =~= old_self.out_edges(m) + edges_at(t1, m));
                    } else {
                        assert(edges_at(t1, m) == edges_at(t0, m));
                        assert(self.nodes@[m] == before.nodes@[m]);
                    }
                }
                assert(self.nodes@.dom() =~= old_self.nodes@.dom());
            }
            i += 1;
        }
        let ghost mid = *self;
        assert(incoming@.take(incoming@.len() as int) =~= incoming@);
        let mut outgoing_edges: Vec<E> = Vec::new();
        let mut j: usize = 0;
        while j < outgoing.len()
            invariant
                obeys_key_model::<N>(),
                obeys_key_model::<E>(),
                j <= outgoing@.len(),
                labels == edge_labels(incoming@) + edge_labels(outgoing@),
                fresh_edges(old_self.edges@, labels),
                self.nodes@ == mid.nodes@,
                outgoing_edges@ == edge_labels(outgoing@.take(j as int)),
                forall|e: E|
                    #[trigger] self.edges@.contains_key(e) <==> old_self.edges@.contains_key(e)
                        || edge_labels(incoming@).contains(e) || edge_labels(
                        outgoing@.take(j as int),
                    ).contains(e),
                forall|e: E|
                    old_self.edges@.contains_key(e) ==> #[trigger] self.edges@[e]
                        == old_self.edges@[e],
                forall|k: int|
                    0 <= k < incoming@.len() ==> self.edges@[#[trigger] incoming@[k].1] == val,
                forall|k: int|
                    0 <= k < j ==> self.edges@[#[trigger] outgoing@[k].1] == outgoing@[k].0,
            decreases outgoing@.len() - j,
        {
            let (n, e) = outgoing[j];
            outgoing_edges.push(e);
            self.edges.insert(e, n);
            proof {
                let t0 = outgoing@.take(j as int);
                let t1 = outgoing@.take(j + 1);
                assert(edge_labels(t1) =~= edge_labels(t0).push(e));
                let at = incoming@.len() + j;
                assert(labels[at] == e);
                assert(!old_self.edges@.contains_key(e));
                assert forall|k: int| 0 <= k < j implies outgoing@[k].1 != e by {
                    assert(labels[incoming@.len() + k] == outgoing@[k].1);
                }
                assert forall|k: int| 0 <= k < incoming@.len() implies incoming@[k].1 != e by {
                    assert(labels[k] == incoming@[k].1);
                }
                assert(!edge_labels(t0).contains(e)) by {
                    if edge_labels(t0).contains(e) {
                        let k = choose|k: int| 0 <= k < edge_labels(t0).len() && edge_labels(t0)[k] == e;
                        assert(outgoing@[k].1 == e);
                    }
                }
                assert(!edge_labels(incoming@).contains(e)) by {
                    if edge_labels(incoming@).contains(e) {
                        let k = choose|k: int| 0 <= k < edge_labels(incoming@).len() && edge_labels(incoming@)[k] == e;
                        assert(incoming@[k].1 == e);
                    }
                }
            }
            j += 1;
        }
        assert(outgoing@.take(outgoing@.len() as int) =~= outgoing@);
        self.nodes.insert(val, outgoing_edges);
        proof {
            assert(self.nodes@.dom() =~= old_self.nodes@.dom().insert(val));
            assert forall|n: N| old_self.has_node(n) && n != val implies #[trigger] self.out_edges(n)
                == old_self.out_edges(n) + edges_at(incoming@, n) by {
                assert(self.nodes@[n] == mid.nodes@[n]);
                assert(mid.out_edges(n) == old_self.out_edges(n) + edges_at(
                    incoming@.take(incoming@.len() as int),
                    n,
                ));
            }
            if old_self.wf() {
                assert forall|n: N, k: int|
                    self.has_node(n) && 0 <= k < self.out_edges(n).len() implies self.edges@.contains_key(
                    #[trigger] self.out_edges(n)[k],
                ) by {
                    if n == val {
                        assert(edge_labels(outgoing@).contains(self.out_edges(n)[k]));
                    } else {
                        let base = old_self.out_edges(n);
                        if k < base.len() {
                            assert(self.out_edges(n)[k] == base[k]);
                            assert(old_self.edges@.contains_key(base[k]));
                        } else {
                            lemma_edges_at_labels(incoming@, n);
                            assert(self.out_edges(n)[k] == edges_at(incoming@, n)[k - base.len()]);
                        }
                    }
                }
            }
        }
    }

    pub fn get_node<'a>(&'a self, val: N) -> (r: Node<'a, N, E>)
        ensures
            r.value() == val,
            r.graph() == *self,
    {
        Node { val, graph: self }
    }
}

} // verus!
