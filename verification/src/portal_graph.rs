use vstd::prelude::*;
use crate::error::GameError;
use crate::graph_map::{
    edge_lookup, graph_edges, graph_incoming, graph_nodes, incoming_added, incoming_removed, key_graph_add_edge, key_graph_all_edges,
    key_graph_contains_node, key_graph_edge_weight, key_graph_has_path, key_graph_new,
    key_graph_predecessors, key_graph_reach_nonzero, key_graph_remove_edge, key_reachable,
    nonzero_edges, carries_items, KeyGraph, NodeKey,
};
use crate::types::Id;

verus! {

/// A node of the graph of players and portals: a player's path runs from `Beginning` or from
/// the portal it came out of, to `End` or to the portal it jumped into.
#[derive(Copy, Clone, PartialEq, Eq, Debug, Structural)]
pub enum PlayerPortalGraphNode {
    Beginning,
    Portal(Id),
    End,
}

impl PlayerPortalGraphNode {
    /// The key under which the graph stores this node.
    pub open spec fn spec_key(self) -> NodeKey {
        match self {
            PlayerPortalGraphNode::Beginning => (0u8, 0u64, 0u64),
            PlayerPortalGraphNode::Portal(id) => (1u8, id.0, 0u64),
            PlayerPortalGraphNode::End => (2u8, 0u64, 0u64),
        }
    }

    pub fn key(self) -> (k: NodeKey)
        ensures
            k == self.spec_key(),
    {
        match self {
            PlayerPortalGraphNode::Beginning => (0u8, 0u64, 0u64),
            PlayerPortalGraphNode::Portal(id) => (1u8, id.0, 0u64),
            PlayerPortalGraphNode::End => (2u8, 0u64, 0u64),
        }
    }
}

/// A node of the graph that follows the items of one kind through time: where they begin,
/// are dropped, pass through a portal, or are held by a player (the `usize` counts the
/// player's successive holdings).
#[derive(Copy, Clone, PartialEq, Eq, Debug, Structural)]
pub enum ItemPortalGraphNode {
    Beginning,
    Dropped(Id),
    Portal(Id),
    Held(Id, usize),
}

/// The key of `Held(player, i)`.
pub open spec fn held_key(player: Id, i: nat) -> NodeKey {
    (3u8, player.0, i as u64)
}

impl ItemPortalGraphNode {
    /// The key under which the graph stores this node.
    pub open spec fn spec_key(self) -> NodeKey {
        match self {
            ItemPortalGraphNode::Beginning => (0u8, 0u64, 0u64),
            ItemPortalGraphNode::Dropped(id) => (1u8, id.0, 0u64),
            ItemPortalGraphNode::Portal(id) => (2u8, id.0, 0u64),
            ItemPortalGraphNode::Held(id, i) => held_key(id, i as nat),
        }
    }

    pub fn key(self) -> (k: NodeKey)
        ensures
            k == self.spec_key(),
    {
        match self {
            ItemPortalGraphNode::Beginning => (0u8, 0u64, 0u64),
            ItemPortalGraphNode::Dropped(id) => (1u8, id.0, 0u64),
            ItemPortalGraphNode::Portal(id) => (2u8, id.0, 0u64),
            ItemPortalGraphNode::Held(id, i) => (3u8, id.0, i as u64),
        }
    }
}

/// The key of `PlayerPortalGraphNode::End`.
pub open spec fn end_key() -> NodeKey {
    PlayerPortalGraphNode::End.spec_key()
}

/// Some edge into `End` from another node carries the label `id`.
pub open spec fn exits(e: Map<(NodeKey, NodeKey), u64>, id: Id) -> bool {
    exists|n: NodeKey|
        #[trigger] e.contains_key((n, end_key())) && n != end_key() && e[(n, end_key())] == id.0
}

/// At most one edge into `End` from another node carries the label `id`.
pub open spec fn one_exit(e: Map<(NodeKey, NodeKey), u64>, id: Id) -> bool {
    forall|a: NodeKey, b: NodeKey|
        #![trigger e.contains_key((a, end_key())), e.contains_key((b, end_key()))]
        e.contains_key((a, end_key())) && e.contains_key((b, end_key())) && a != end_key() && b
            != end_key() && e[(a, end_key())] == id.0 && e[(b, end_key())] == id.0 ==> a == b
}

/// Walking back from the edge into `End` labelled `id` visits the nodes `p`, and `s` lists
/// `id` followed by the labels of the edges taken, until a node with no edge into it from
/// another node. An edge from a node to itself is never taken.
pub open spec fn trail_along(
    e: Map<(NodeKey, NodeKey), u64>,
    id: Id,
    s: Seq<Id>,
    p: Seq<NodeKey>,
) -> bool {
    &&& s.len() >= 1
    &&& p.len() == s.len()
    &&& s[0] == id
    &&& e.contains_key((p[0], end_key()))
    &&& p[0] != end_key()
    &&& e[(p[0], end_key())] == id.0
    &&& forall|i: int, j: int|
        #![trigger p[i], p[j]]
        0 <= i && j == i + 1 && j < p.len() ==> e.contains_key((p[j], p[i])) && p[j] != p[i]
            && s[j].0 == e[(p[j], p[i])]
    &&& forall|b: NodeKey| b != p.last() ==> !#[trigger] e.contains_key((b, p.last()))
}

/// `s` is the trail of the player `id`: `id` and the players whose paths lead back from its
/// exit, latest first.
pub open spec fn is_trail(e: Map<(NodeKey, NodeKey), u64>, id: Id, s: Seq<Id>) -> bool {
    exists|p: Seq<NodeKey>| #[trigger] trail_along(e, id, s, p)
}

/// The trail of `id`, where there is one.
pub open spec fn trail_of(e: Map<(NodeKey, NodeKey), u64>, id: Id) -> Seq<Id> {
    choose|s: Seq<Id>| is_trail(e, id, s)
}

/// Along the walk `p` back from the exit of `id`, with labels `s`, no node has edges into it
/// from two other nodes: at each node the walk has one way to go on.
pub open spec fn walk_determined(
    e: Map<(NodeKey, NodeKey), u64>,
    id: Id,
    s: Seq<Id>,
    p: Seq<NodeKey>,
) -> bool {
    &&& trail_along(e, id, s, p)
    &&& forall|j: int, a: NodeKey, b: NodeKey|
        #![trigger e.contains_key((a, p[j])), e.contains_key((b, p[j]))]
        0 <= j < p.len() && e.contains_key((a, p[j])) && e.contains_key((b, p[j])) && a != p[j]
            && b != p[j] ==> a == b
}

/// Where an edge into `End` carries `id`, walking back from it meets only nodes with at most
/// one edge into them from another node, until a node with none.
pub open spec fn trail_walkable(e: Map<(NodeKey, NodeKey), u64>, id: Id) -> bool {
    exits(e, id) ==> exists|s: Seq<Id>, p: Seq<NodeKey>| #[trigger] walk_determined(e, id, s, p)
}

/// A walk back from the exit of `id` agrees with a determined one on its first `k + 1`
/// nodes and labels.
proof fn lemma_trails_agree(
    e: Map<(NodeKey, NodeKey), u64>,
    id: Id,
    s0: Seq<Id>,
    p0: Seq<NodeKey>,
    s1: Seq<Id>,
    p1: Seq<NodeKey>,
    k: int,
)
    requires
        one_exit(e, id),
        walk_determined(e, id, s0, p0),
        trail_along(e, id, s1, p1),
        0 <= k < p0.len(),
        k < p1.len(),
    ensures
        p0[k] == p1[k],
        s0[k] == s1[k],
    decreases k,
{
    if k == 0 {
        assert(e.contains_key((p0[0], end_key())) && e.contains_key((p1[0], end_key())));
    } else {
        let i = k - 1;
        lemma_trails_agree(e, id, s0, p0, s1, p1, i);
        assert(p0[i] == p0[i] && p0[k] == p0[k]);
        assert(p1[i] == p1[i] && p1[k] == p1[k]);
        assert(e.contains_key((p0[k], p0[i])));
        assert(e.contains_key((p1[k], p1[i])));
        assert(s0[k].0 == s1[k].0);
    }
}

/// Every trail of `id` is the determined one.
proof fn lemma_trail_is_walk(
    e: Map<(NodeKey, NodeKey), u64>,
    id: Id,
    s0: Seq<Id>,
    p0: Seq<NodeKey>,
    s1: Seq<Id>,
)
    requires
        one_exit(e, id),
        walk_determined(e, id, s0, p0),
        is_trail(e, id, s1),
    ensures
        s1 == s0,
{
    let p1 = choose|p: Seq<NodeKey>| #[trigger] trail_along(e, id, s1, p);
    if p1.len() < p0.len() {
        let k = p1.len() - 1;
        lemma_trails_agree(e, id, s0, p0, s1, p1, k);
        let j = k + 1;
        assert(p0[k] == p0[k] && p0[j] == p0[j]);
        assert(e.contains_key((p0[j], p0[k])));
        assert(!e.contains_key((p0[j], p1.last())));
    } else if p0.len() < p1.len() {
        let k = p0.len() - 1;
        lemma_trails_agree(e, id, s0, p0, s1, p1, k);
        let j = k + 1;
        assert(p1[k] == p1[k] && p1[j] == p1[j]);
        assert(e.contains_key((p1[j], p1[k])));
        assert(!e.contains_key((p1[j], p0.last())));
    } else {
        assert forall|k: int| 0 <= k < s1.len() implies s1[k] == s0[k] by {
            lemma_trails_agree(e, id, s0, p0, s1, p1, k);
        }
        assert(s1 =~= s0);
    }
}

/// A player has at most one trail: walking back from its exit is determined at each step.
pub proof fn law_trail_unique(e: Map<(NodeKey, NodeKey), u64>, id: Id, s1: Seq<Id>, s2: Seq<Id>)
    requires
        one_exit(e, id),
        trail_walkable(e, id),
        is_trail(e, id, s1),
        is_trail(e, id, s2),
    ensures
        s1 == s2,
{
    let p1 = choose|p: Seq<NodeKey>| #[trigger] trail_along(e, id, s1, p);
    assert(e.contains_key((p1[0], end_key())) && e[(p1[0], end_key())] == id.0);
    assert(exits(e, id));
    let (s0, p0) = choose|s: Seq<Id>, p: Seq<NodeKey>| #[trigger] walk_determined(e, id, s, p);
    lemma_trail_is_walk(e, id, s0, p0, s1);
    lemma_trail_is_walk(e, id, s0, p0, s2);
}

/// `Held(player, 1)` to `Held(player, n)` are nodes, and `Held(player, n + 1)` is not.
pub open spec fn held_run(nodes: Set<NodeKey>, player: Id, n: nat) -> bool {
    &&& forall|j: nat| 1 <= j <= n ==> nodes.contains(#[trigger] held_key(player, j))
    &&& !nodes.contains(held_key(player, n + 1))
}

/// How many holdings of `player` the nodes record after the first, counted from
/// `Held(player, 1)` up to the first one missing.
pub open spec fn held_count(nodes: Set<NodeKey>, player: Id) -> nat {
    choose|n: nat| held_run(nodes, player, n)
}

/// `Held(player, 0)` to `Held(player, n)`.
pub open spec fn run_nodes(player: Id, n: nat) -> Seq<ItemPortalGraphNode> {
    Seq::new(n + 1, |j: int| ItemPortalGraphNode::Held(player, j as usize))
}

/// The holdings of the players of `trail`, player by player: each one's first holding and
/// then those that the nodes record after it.
pub open spec fn held_nodes_for(nodes: Set<NodeKey>, trail: Seq<Id>) -> Seq<ItemPortalGraphNode>
    decreases trail.len(),
{
    if trail.len() == 0 {
        Seq::empty()
    } else {
        held_nodes_for(nodes, trail.drop_last()) + run_nodes(
            trail.last(),
            held_count(nodes, trail.last()),
        )
    }
}

/// The keys of a sequence of nodes.
pub open spec fn keys_of(v: Seq<ItemPortalGraphNode>) -> Seq<NodeKey> {
    v.map_values(|n: ItemPortalGraphNode| n.spec_key())
}

/// The edges after adding `count` items along each step of the walk `s`, step by step.
pub open spec fn add_along(e: Map<(NodeKey, NodeKey), u64>, s: Seq<NodeKey>, count: nat) -> Map<
    (NodeKey, NodeKey),
    u64,
>
    decreases s.len(),
{
    if s.len() < 2 {
        e
    } else {
        let e1 = add_along(e, s.drop_last(), count);
        let k = (s[s.len() - 2], s[s.len() - 1]);
        e1.insert(
            k,
            (if e1.contains_key(k) {
                e1[k] + count
            } else {
                count as int
            }) as u64,
        )
    }
}

/// No edge along the walk `s` comes to hold more than `usize::MAX` items by `add_along`.
pub open spec fn add_along_fits(e: Map<(NodeKey, NodeKey), u64>, s: Seq<NodeKey>, count: nat) -> bool
    decreases s.len(),
{
    s.len() < 2 || {
        let e1 = add_along(e, s.drop_last(), count);
        let k = (s[s.len() - 2], s[s.len() - 1]);
        &&& add_along_fits(e, s.drop_last(), count)
        &&& (if e1.contains_key(k) {
            e1[k] as int
        } else {
            0
        }) + count <= usize::MAX
    }
}

/// The nodes after `add_along`: every node of the walk, if it has a step.
pub open spec fn nodes_along(nodes: Set<NodeKey>, s: Seq<NodeKey>) -> Set<NodeKey>
    decreases s.len(),
{
    if s.len() < 2 {
        nodes
    } else {
        nodes_along(nodes, s.drop_last()).insert(s[s.len() - 2]).insert(s[s.len() - 1])
    }
}

/// The edges after taking `count` items from each step of the walk `s`, step by step; an
/// edge left with none goes.
pub open spec fn take_along(e: Map<(NodeKey, NodeKey), u64>, s: Seq<NodeKey>, count: nat) -> Map<
    (NodeKey, NodeKey),
    u64,
>
    decreases s.len(),
{
    if s.len() < 2 {
        e
    } else {
        let e1 = take_along(e, s.drop_last(), count);
        let k = (s[s.len() - 2], s[s.len() - 1]);
        if e1[k] == count {
            e1.remove(k)
        } else {
            e1.insert(k, (e1[k] - count) as u64)
        }
    }
}

/// Each step of the walk `s` is an edge with at least `count` items when `take_along` comes
/// to it.
pub open spec fn take_along_ok(e: Map<(NodeKey, NodeKey), u64>, s: Seq<NodeKey>, count: nat) -> bool
    decreases s.len(),
{
    s.len() < 2 || {
        let e1 = take_along(e, s.drop_last(), count);
        let k = (s[s.len() - 2], s[s.len() - 1]);
        &&& take_along_ok(e, s.drop_last(), count)
        &&& e1.contains_key(k)
        &&& e1[k] >= count
    }
}

/// The keys `Held(player, lo)` to `Held(player, lo + n - 1)`.
pub open spec fn held_range(player: Id, lo: nat, n: nat) -> Set<NodeKey>
    decreases n,
{
    if n == 0 {
        Set::empty()
    } else {
        held_range(player, lo, (n - 1) as nat).insert(held_key(player, (lo + n - 1) as nat))
    }
}

proof fn lemma_held_range(player: Id, lo: nat, n: nat)
    requires
        lo + n <= u64::MAX + 1,
    ensures
        held_range(player, lo, n).finite(),
        held_range(player, lo, n).len() == n,
        forall|k: NodeKey|
            held_range(player, lo, n).contains(k) ==> exists|j: nat|
                lo <= j < lo + n && k == #[trigger] held_key(player, j),
        forall|j: nat| lo <= j < lo + n ==> held_range(player, lo, n).contains(#[trigger] held_key(player, j)),
    decreases n,
{
    if n > 0 {
        let m = (n - 1) as nat;
        lemma_held_range(player, lo, m);
        let top = (lo + n - 1) as nat;
        assert(!held_range(player, lo, m).contains(held_key(player, top))) by {
            if held_range(player, lo, m).contains(held_key(player, top)) {
                let j = choose|j: nat| lo <= j < lo + m && held_key(player, top) == #[trigger] held_key(player, j);
                assert(j as u64 == top as u64);
            }
        }
        assert forall|k: NodeKey| held_range(player, lo, n).contains(k) implies exists|j: nat|
            lo <= j < lo + n && k == #[trigger] held_key(player, j) by {
            if k != held_key(player, top) {
                let j = choose|j: nat| lo <= j < lo + m && k == #[trigger] held_key(player, j);
            }
        }
    }
}

/// The holdings `Held(player, lo)` to `Held(player, lo + n - 1)` of a finite set of nodes
/// number at most its size.
proof fn lemma_held_bound(nodes: Set<NodeKey>, player: Id, lo: nat, n: nat)
    requires
        nodes.finite(),
        lo + n <= u64::MAX + 1,
        forall|j: nat| lo <= j < lo + n ==> nodes.contains(#[trigger] held_key(player, j)),
    ensures
        n <= nodes.len(),
{
    lemma_held_range(player, lo, n);
    assert(held_range(player, lo, n).subset_of(nodes)) by {
        assert forall|k: NodeKey| held_range(player, lo, n).contains(k) implies nodes.contains(k) by {
            let j = choose|j: nat| lo <= j < lo + n && k == #[trigger] held_key(player, j);
        }
    }
    vstd::set_lib::lemma_len_subset(held_range(player, lo, n), nodes);
}

/// At most one count of holdings fits the nodes.
pub proof fn lemma_held_count(nodes: Set<NodeKey>, player: Id, n: nat)
    requires
        held_run(nodes, player, n),
    ensures
        held_count(nodes, player) == n,
{
    let m = held_count(nodes, player);
    assert(held_run(nodes, player, m));
    if m < n {
        assert(nodes.contains(held_key(player, m + 1)));
    }
    if n < m {
        assert(nodes.contains(held_key(player, n + 1)));
    }
}

/// How many of the first `n - 1` steps of the walk `s` go along `k`.
pub open spec fn steps_along(s: Seq<NodeKey>, k: (NodeKey, NodeKey), n: int) -> nat
    decreases n,
{
    if n < 2 {
        0
    } else {
        steps_along(s, k, n - 1) + (if (s[n - 2], s[n - 1]) == k {
            1nat
        } else {
            0nat
        })
    }
}

/// The number of items on `k` in `e`, 0 where there is no such edge.
pub open spec fn weight_or_zero(e: Map<(NodeKey, NodeKey), u64>, k: (NodeKey, NodeKey)) -> int {
    if e.contains_key(k) {
        e[k] as int
    } else {
        0
    }
}

/// After adding along the first `n` nodes of `s`, each edge holds what it held plus `count`
/// for each step along it.
proof fn lemma_add_along_counts(e: Map<(NodeKey, NodeKey), u64>, s: Seq<NodeKey>, count: nat, n: int)
    requires
        0 <= n <= s.len(),
        add_along_fits(e, s.take(n), count),
    ensures
        forall|k: (NodeKey, NodeKey)| #[trigger]
            add_along(e, s.take(n), count).contains_key(k) == (e.contains_key(k) || steps_along(s, k, n) > 0),
        forall|k: (NodeKey, NodeKey)| #[trigger]
            add_along(e, s.take(n), count).contains_key(k) ==> add_along(e, s.take(n), count)[k]
                == weight_or_zero(e, k) + count * steps_along(s, k, n),
    decreases n,
{
    if n < 2 {
        assert(s.take(n).len() < 2);
        assert forall|k: (NodeKey, NodeKey)| #[trigger]
            add_along(e, s.take(n), count).contains_key(k) implies add_along(e, s.take(n), count)[k]
                == weight_or_zero(e, k) + count * steps_along(s, k, n) by {
            assert(count * 0 == 0) by (nonlinear_arith);
        }
    } else {
        let t = s.take(n);
        assert(t.drop_last() =~= s.take(n - 1));
        lemma_add_along_counts(e, s, count, n - 1);
        let step = (s[n - 2], s[n - 1]);
        assert(t[t.len() - 2] == s[n - 2] && t[t.len() - 1] == s[n - 1]);
        let e1 = add_along(e, s.take(n - 1), count);
        assert forall|k: (NodeKey, NodeKey)| #[trigger]
            add_along(e, t, count).contains_key(k) implies add_along(e, t, count)[k]
                == weight_or_zero(e, k) + count * steps_along(s, k, n) by {
            let m = steps_along(s, k, n - 1);
            if k == step {
                assert(count * (m + 1) == count * m + count) by (nonlinear_arith);
                if !e1.contains_key(k) {
                    assert(m == 0);
                    assert(!e.contains_key(k));
                    assert(count * 0 == 0) by (nonlinear_arith);
                }
            }
        }
    }
}

/// After adding along all of `s` and then taking back along its first `n` nodes, each edge
/// holds what it held at first plus `count` for each step along it still to be taken back,
/// where no edge of `s` held 0 items at first.
proof fn lemma_take_along_counts(e: Map<(NodeKey, NodeKey), u64>, s: Seq<NodeKey>, count: nat, n: int)
    requires
        0 <= n <= s.len(),
        count > 0,
        add_along_fits(e, s, count),
        forall|k: (NodeKey, NodeKey)| e.contains_key(k) && steps_along(s, k, s.len() as int) > 0 ==> #[trigger] e[k] > 0,
    ensures
        take_along_ok(add_along(e, s, count), s.take(n), count),
        forall|k: (NodeKey, NodeKey)| #[trigger]
            take_along(add_along(e, s, count), s.take(n), count).contains_key(k) == (e.contains_key(k)
                || steps_along(s, k, s.len() as int) > steps_along(s, k, n)),
        forall|k: (NodeKey, NodeKey)| #[trigger]
            take_along(add_along(e, s, count), s.take(n), count).contains_key(k) ==> take_along(
                add_along(e, s, count),
                s.take(n),
                count,
            )[k] == weight_or_zero(e, k) + count * (steps_along(s, k, s.len() as int) - steps_along(s, k, n)),
    decreases n,
{
    let a = add_along(e, s, count);
    let total = s.len() as int;
    assert(s.take(total) =~= s);
    lemma_add_along_counts(e, s, count, total);
    lemma_steps_along_grow(s, total);
    if n < 2 {
        assert(s.take(n).len() < 2);
    } else {
        let t = s.take(n);
        assert(t.drop_last() =~= s.take(n - 1));
        lemma_take_along_counts(e, s, count, n - 1);
        let step = (s[n - 2], s[n - 1]);
        assert(t[t.len() - 2] == s[n - 2] && t[t.len() - 1] == s[n - 1]);
        let e1 = take_along(a, s.take(n - 1), count);
        let m_step = steps_along(s, step, total) - steps_along(s, step, n - 1);
        assert(steps_along(s, step, n) == steps_along(s, step, n - 1) + 1);
        assert(steps_along(s, step, n) <= steps_along(s, step, total));
        assert(m_step >= 1);
        assert(e1.contains_key(step));
        assert(count * m_step >= count) by (nonlinear_arith)
            requires
                m_step >= 1,
                count > 0,
        ;
        assert(e1[step] >= count);
        assert forall|k: (NodeKey, NodeKey)| #[trigger]
            take_along(a, t, count).contains_key(k) == (e.contains_key(k) || steps_along(s, k, total)
                > steps_along(s, k, n)) by {
            if k == step {
                let w = weight_or_zero(e, k);
                if e.contains_key(k) {
                    assert(w > 0);
                }
                assert(count * m_step == count * (m_step - 1) + count) by (nonlinear_arith);
                if m_step == 1 {
                    assert(count * 0 == 0) by (nonlinear_arith);
                } else {
                    assert(count * (m_step - 1) >= count) by (nonlinear_arith)
                        requires
                            m_step - 1 >= 1,
                            count > 0,
                    ;
                }
            }
        }
        assert forall|k: (NodeKey, NodeKey)| #[trigger]
            take_along(a, t, count).contains_key(k) implies take_along(a, t, count)[k] == weight_or_zero(e, k)
                + count * (steps_along(s, k, total) - steps_along(s, k, n)) by {
            if k == step {
                assert(count * m_step == count * (m_step - 1) + count) by (nonlinear_arith);
            }
        }
    }
}

/// The count of steps along an edge never falls as the walk goes on.
proof fn lemma_steps_along_grow(s: Seq<NodeKey>, n: int)
    ensures
        forall|k: (NodeKey, NodeKey), j: int| j <= n ==> #[trigger] steps_along(s, k, j) <= steps_along(s, k, n),
    decreases n,
{
    if n >= 2 {
        lemma_steps_along_grow(s, n - 1);
        assert forall|k: (NodeKey, NodeKey), j: int| j <= n implies #[trigger] steps_along(s, k, j) <= steps_along(s, k, n) by {
            if j <= n - 1 {
                assert(steps_along(s, k, j) <= steps_along(s, k, n - 1));
            }
        }
    } else {
        assert forall|k: (NodeKey, NodeKey), j: int| j <= n implies #[trigger] steps_along(s, k, j) <= steps_along(s, k, n) by {
            assert(steps_along(s, k, j) == 0);
        }
    }
}

/// Taking back `count` items along a walk after adding them along it leaves the edges as they
/// were, where `count` is positive and no edge along the walk held 0 items at first.
pub proof fn law_take_along_undoes_add_along(e: Map<(NodeKey, NodeKey), u64>, s: Seq<NodeKey>, count: nat)
    requires
        count > 0,
        add_along_fits(e, s, count),
        forall|k: (NodeKey, NodeKey)| e.contains_key(k) && steps_along(s, k, s.len() as int) > 0 ==> #[trigger] e[k] > 0,
    ensures
        take_along_ok(add_along(e, s, count), s, count),
        take_along(add_along(e, s, count), s, count) == e,
{
    let total = s.len() as int;
    assert(s.take(total) =~= s);
    lemma_take_along_counts(e, s, count, total);
    let r = take_along(add_along(e, s, count), s, count);
    assert forall|k: (NodeKey, NodeKey)| #[trigger] r.contains_key(k) implies r[k] == e[k] by {
        assert(count * 0 == 0) by (nonlinear_arith);
    }
    assert(r =~= e);
}

/// In a finite set of nodes the holdings of `player` after its first always end somewhere.
proof fn lemma_held_run_from(nodes: Set<NodeKey>, player: Id, j: nat)
    requires
        nodes.finite(),
        nodes.len() < usize::MAX,
        1 <= j <= nodes.len() + 1,
        forall|i: nat| 1 <= i < j ==> nodes.contains(#[trigger] held_key(player, i)),
    ensures
        held_run(nodes, player, held_count(nodes, player)),
        held_count(nodes, player) <= nodes.len(),
    decreases nodes.len() + 1 - j,
{
    if !nodes.contains(held_key(player, j)) {
        assert(held_run(nodes, player, (j - 1) as nat));
        lemma_held_count(nodes, player, (j - 1) as nat);
    } else {
        lemma_held_bound(nodes, player, 1, j);
        lemma_held_run_from(nodes, player, j + 1);
    }
}

/// Adding along the walk of a trail's holdings leaves the holdings that the trail finds the
/// same: the walk's only new nodes are first holdings.
proof fn lemma_held_nodes_stable(nodes: Set<NodeKey>, trail: Seq<Id>, extra: Set<NodeKey>)
    requires
        nodes.finite(),
        nodes.len() < usize::MAX,
        forall|k: NodeKey| #[trigger] extra.contains(k) ==> exists|q: Id, j: nat|
            #![trigger held_key(q, j)]
            k == held_key(q, j) && j <= held_count(nodes, q),
    ensures
        held_nodes_for(nodes.union(extra), trail) == held_nodes_for(nodes, trail),
    decreases trail.len(),
{
    if trail.len() > 0 {
        lemma_held_nodes_stable(nodes, trail.drop_last(), extra);
        let p = trail.last();
        let n1 = nodes.union(extra);
        lemma_held_run_from(nodes, p, 1);
        let m = held_count(nodes, p);
        assert(held_run(n1, p, m)) by {
            if n1.contains(held_key(p, m + 1)) {
                assert(extra.contains(held_key(p, m + 1)));
                let (q, j) = choose|q: Id, j: nat|
                    #![trigger held_key(q, j)]
                    held_key(p, m + 1) == held_key(q, j) && j <= held_count(nodes, q);
                lemma_held_run_from(nodes, q, 1);
                assert(j as u64 == (m + 1) as u64);
                assert(q == p);
            }
        }
        lemma_held_count(n1, p, m);
    }
}

/// The nodes that adding along a walk leaves: those it had and those of the walk.
proof fn lemma_nodes_along(nodes: Set<NodeKey>, s: Seq<NodeKey>)
    requires
        s.len() >= 2,
    ensures
        nodes_along(nodes, s) == nodes.union(s.to_set()),
    decreases s.len(),
{
    let n = s.len() as int;
    let init = s.drop_last();
    let prev = nodes_along(nodes, init);
    assert(nodes_along(nodes, s) == prev.insert(s[n - 2]).insert(s[n - 1]));
    if init.len() >= 2 {
        lemma_nodes_along(nodes, init);
    } else {
        assert(prev == nodes);
    }
    assert forall|k: NodeKey| nodes_along(nodes, s).contains(k) == nodes.union(s.to_set()).contains(k) by {
        if s.to_set().contains(k) {
            let i = choose|i: int| 0 <= i < s.len() && s[i] == k;
            if i < n - 2 {
                assert(init[i] == k);
                assert(init.to_set().contains(k));
            }
        }
        if init.len() >= 2 && init.to_set().contains(k) {
            let i = choose|i: int| 0 <= i < init.len() && init[i] == k;
            assert(s[i] == k);
        }
        if k == s[n - 2] {
            assert(s.to_set().contains(s[n - 2]));
        }
        if k == s[n - 1] {
            assert(s.to_set().contains(s[n - 1]));
        }
    }
    assert(nodes_along(nodes, s) =~= nodes.union(s.to_set()));
}

/// Unwishing `count` items after wishing them for the same player leaves the item graph's
/// edges as they were (its nodes keep the first holdings that the wish added), where `count`
/// is positive and no edge along the trail's holdings held 0 items before: the unwish walks
/// the same holdings, and takes back exactly what the wish added.
pub proof fn law_unwish_undoes_wish(
    edges: Map<(NodeKey, NodeKey), u64>,
    nodes: Set<NodeKey>,
    trail: Seq<Id>,
    count: nat,
)
    requires
        nodes.finite(),
        nodes.len() < usize::MAX,
        count > 0,
        add_along_fits(edges, keys_of(held_nodes_for(nodes, trail)), count),
        forall|k: (NodeKey, NodeKey)|
            edges.contains_key(k) && steps_along(
                keys_of(held_nodes_for(nodes, trail)),
                k,
                keys_of(held_nodes_for(nodes, trail)).len() as int,
            ) > 0 ==> #[trigger] edges[k] > 0,
    ensures
        keys_of(held_nodes_for(nodes_along(nodes, keys_of(held_nodes_for(nodes, trail))), trail))
            == keys_of(held_nodes_for(nodes, trail)),
        take_along_ok(
            add_along(edges, keys_of(held_nodes_for(nodes, trail)), count),
            keys_of(held_nodes_for(nodes, trail)),
            count,
        ),
        take_along(
            add_along(edges, keys_of(held_nodes_for(nodes, trail)), count),
            keys_of(held_nodes_for(nodes, trail)),
            count,
        ) == edges,
{
    let held = held_nodes_for(nodes, trail);
    let keys = keys_of(held);
    law_take_along_undoes_add_along(edges, keys, count);
    if keys.len() >= 2 {
        lemma_nodes_along(nodes, keys);
        lemma_held_keys(nodes, trail);
        lemma_held_nodes_stable(nodes, trail, keys.to_set());
    }
}

/// Every key of a trail's holdings is some player's holding within its recorded run.
proof fn lemma_held_keys(nodes: Set<NodeKey>, trail: Seq<Id>)
    requires
        nodes.finite(),
        nodes.len() < usize::MAX,
    ensures
        forall|k: NodeKey| #[trigger] keys_of(held_nodes_for(nodes, trail)).to_set().contains(k) ==> exists|q: Id, j: nat|
            #![trigger held_key(q, j)]
            k == held_key(q, j) && j <= held_count(nodes, q),
    decreases trail.len(),
{
    if trail.len() > 0 {
        lemma_held_keys(nodes, trail.drop_last());
        let pre = held_nodes_for(nodes, trail.drop_last());
        let p = trail.last();
        let run = run_nodes(p, held_count(nodes, p));
        let all = held_nodes_for(nodes, trail);
        assert(all == pre + run);
        assert forall|k: NodeKey| #[trigger] keys_of(all).to_set().contains(k) implies exists|q: Id, j: nat|
            #![trigger held_key(q, j)]
            k == held_key(q, j) && j <= held_count(nodes, q) by {
            let i = choose|i: int| 0 <= i < keys_of(all).len() && keys_of(all)[i] == k;
            if i < pre.len() {
                assert(keys_of(pre)[i] == k);
                assert(keys_of(pre).to_set().contains(k));
            } else {
                let j = i - pre.len();
                lemma_held_run_from(nodes, p, 1);
                assert(all[i] == run[j]);
                assert(run[j] == ItemPortalGraphNode::Held(p, j as usize));
                assert(k == held_key(p, j as nat));
            }
        }
    }
}

/// The record of incoming edges of `g` lists, for each node, exactly the other ends of the
/// edges into it.
spec fn incoming_kept(g: KeyGraph) -> bool {
    &&& forall|a: NodeKey, b: NodeKey|
        graph_incoming(g).contains_key(b) ==> (#[trigger] graph_incoming(g)[b].contains(a) == (
        graph_edges(g).contains_key((a, b)) && a != b))
    &&& forall|a: NodeKey, b: NodeKey|
        #[trigger] graph_edges(g).contains_key((a, b)) && a != b ==> graph_incoming(g).contains_key(b)
    &&& forall|n: NodeKey| #[trigger] graph_incoming(g).contains_key(n) == graph_nodes(g).contains(n)
}

/// Adding an edge keeps the record of incoming edges in step with the edges.
proof fn lemma_incoming_after_add(old_g: KeyGraph, new_g: KeyGraph, a: NodeKey, b: NodeKey, w: u64)
    requires
        incoming_kept(old_g),
        forall|x: NodeKey, y: NodeKey|
            #[trigger] graph_edges(old_g).contains_key((x, y)) ==> graph_nodes(old_g).contains(x)
                && graph_nodes(old_g).contains(y),
        graph_edges(new_g) == graph_edges(old_g).insert((a, b), w),
        graph_nodes(new_g) == (if graph_edges(old_g).contains_key((a, b)) {
            graph_nodes(old_g)
        } else {
            graph_nodes(old_g).insert(a).insert(b)
        }),
        graph_incoming(new_g) == (if graph_edges(old_g).contains_key((a, b)) {
            graph_incoming(old_g)
        } else {
            incoming_added(graph_incoming(old_g), a, b)
        }),
    ensures
        incoming_kept(new_g),
{
    if !graph_edges(old_g).contains_key((a, b)) {
        let inc = graph_incoming(old_g);
        let inc2 = graph_incoming(new_g);
        let e2 = graph_edges(new_g);
        assert forall|x: NodeKey, y: NodeKey|
            inc2.contains_key(y) implies (#[trigger] inc2[y].contains(x) == (e2.contains_key((x, y))
                && x != y)) by {
            if inc.contains_key(y) {
                assert(inc[y].contains(x) == (graph_edges(old_g).contains_key((x, y)) && x != y));
            }
        }
        assert forall|x: NodeKey, y: NodeKey|
            #[trigger] e2.contains_key((x, y)) && x != y implies inc2.contains_key(y) by {
            if (x, y) != (a, b) {
                assert(graph_edges(old_g).contains_key((x, y)));
            }
        }
        assert forall|n: NodeKey| #[trigger] inc2.contains_key(n) == graph_nodes(new_g).contains(n) by {
            assert(inc.contains_key(n) == graph_nodes(old_g).contains(n));
        }
    }
}

/// Taking out an edge keeps the record of incoming edges in step with the edges.
proof fn lemma_incoming_after_remove(old_g: KeyGraph, new_g: KeyGraph, a: NodeKey, b: NodeKey)
    requires
        incoming_kept(old_g),
        graph_edges(new_g) == graph_edges(old_g).remove((a, b)),
        graph_nodes(new_g) == graph_nodes(old_g),
        graph_incoming(new_g) == incoming_removed(graph_incoming(old_g), a, b),
    ensures
        incoming_kept(new_g),
{
    let inc = graph_incoming(old_g);
    let inc2 = graph_incoming(new_g);
    let e2 = graph_edges(new_g);
    assert forall|x: NodeKey, y: NodeKey|
        inc2.contains_key(y) implies (#[trigger] inc2[y].contains(x) == (e2.contains_key((x, y)) && x
            != y)) by {
        assert(inc[y].contains(x) == (graph_edges(old_g).contains_key((x, y)) && x != y));
        if a != b && y == b {
            assert(inc2[y] == inc[b].remove(a));
        } else {
            assert(inc2[y] == inc[y]);
        }
    }
    assert forall|x: NodeKey, y: NodeKey|
        #[trigger] e2.contains_key((x, y)) && x != y implies inc2.contains_key(y) by {
        assert(graph_edges(old_g).contains_key((x, y)));
    }
    assert forall|n: NodeKey| #[trigger] inc2.contains_key(n) == graph_nodes(new_g).contains(n) by {
        assert(inc.contains_key(n) == graph_nodes(old_g).contains(n));
    }
}

/// No edge out of `n` carries items.
pub open spec fn is_sink(e: Map<(NodeKey, NodeKey), u64>, n: NodeKey) -> bool {
    forall|m: NodeKey| !#[trigger] nonzero_edges(e).contains_key((n, m))
}

/// Following the edges that carry items from `origin` leads to a node out of which none do:
/// the items there end up somewhere.
pub open spec fn drains(e: Map<(NodeKey, NodeKey), u64>, origin: NodeKey) -> bool {
    exists|n: NodeKey| #[trigger] key_reachable(nonzero_edges(e), origin, n) && is_sink(e, n)
}

/// Which player went from which node to which: an edge is labelled with the id of the player
/// who took it.
pub struct PlayerPortalGraph {
    map: KeyGraph,
}

/// How many items of one kind flow along each edge.
pub struct ItemPortalGraph {
    map: KeyGraph,
}

impl PlayerPortalGraph {
    #[verifier::type_invariant]
    spec fn well_kept(&self) -> bool {
        &&& graph_nodes(self.map).finite()
        &&& forall|a: NodeKey, b: NodeKey|
            #[trigger] graph_edges(self.map).contains_key((a, b)) ==> graph_nodes(self.map).contains(a)
                && graph_nodes(self.map).contains(b)
        &&& incoming_kept(self.map)
    }

    /// The edges, by the keys of their two nodes, with the raw id of the player who took them.
    pub closed spec fn edges(&self) -> Map<(NodeKey, NodeKey), u64> {
        graph_edges(self.map)
    }

    /// The keys of the nodes.
    pub closed spec fn nodes(&self) -> Set<NodeKey> {
        graph_nodes(self.map)
    }

    pub fn new() -> (g: Self)
        ensures
            g.nodes().is_empty(),
            g.edges().dom().is_empty(),
    {
        PlayerPortalGraph { map: key_graph_new() }
    }

    /// Records that `player` went from `a` to `b`, replacing any earlier label of that edge;
    /// gives back the earlier label.
    pub fn add_edge(&mut self, a: PlayerPortalGraphNode, b: PlayerPortalGraphNode, player: Id) -> (r:
        Option<Id>)
        ensures
            final(self).edges() == old(self).edges().insert((a.spec_key(), b.spec_key()), player.0),
            final(self).nodes() == old(self).nodes().insert(a.spec_key()).insert(b.spec_key()),
            r == (match edge_lookup(old(self).edges(), a.spec_key(), b.spec_key()) {
                Some(w) => Some(Id(w)),
                None => None,
            }),
    {
        proof {
            use_type_invariant(&*self);
        }
        let mut map = key_graph_new();
        std::mem::swap(&mut map, &mut self.map);
        let ghost old_map = map;
        let r = key_graph_add_edge(&mut map, a.key(), b.key(), player.0);
        proof {
            lemma_incoming_after_add(old_map, map, a.spec_key(), b.spec_key(), player.0);
        }
        self.map = map;
        match r {
            Some(w) => Some(Id(w)),
            None => None,
        }
    }

    /// Takes out the edge from `a` to `b`, giving back its label; the nodes stay.
    pub fn remove_edge(&mut self, a: PlayerPortalGraphNode, b: PlayerPortalGraphNode) -> (r: Option<
        Id,
    >)
        ensures
            final(self).edges() == old(self).edges().remove((a.spec_key(), b.spec_key())),
            final(self).nodes() == old(self).nodes(),
            r == (match edge_lookup(old(self).edges(), a.spec_key(), b.spec_key()) {
                Some(w) => Some(Id(w)),
                None => None,
            }),
    {
        proof {
            use_type_invariant(&*self);
        }
        let mut map = key_graph_new();
        std::mem::swap(&mut map, &mut self.map);
        let ghost old_map = map;
        let r = key_graph_remove_edge(&mut map, a.key(), b.key());
        proof {
            lemma_incoming_after_remove(old_map, map, a.spec_key(), b.spec_key());
        }
        self.map = map;
        match r {
            Some(w) => Some(Id(w)),
            None => None,
        }
    }

    /// The label of the edge from `a` to `b`, if there is one.
    pub fn edge_weight(&self, a: PlayerPortalGraphNode, b: PlayerPortalGraphNode) -> (r: Option<Id>)
        ensures
            r == (match edge_lookup(self.edges(), a.spec_key(), b.spec_key()) {
                Some(w) => Some(Id(w)),
                None => None,
            }),
    {
        match key_graph_edge_weight(&self.map, a.key(), b.key()) {
            Some(w) => Some(Id(w)),
            None => None,
        }
    }
}

/// The trail of the player `id`: `id`, then the player who jumped into the portal that `id`
/// came out of, and so on back to a player who came from the beginning or from a portal
/// nobody has jumped into; `None` where no edge into `End` carries `id`.
pub fn find_trail_from_origin(graph: &PlayerPortalGraph, id: Id) -> (r: Option<Vec<Id>>)
    requires
        one_exit(graph.edges(), id),
        trail_walkable(graph.edges(), id),
    ensures
        r is None <==> !exits(graph.edges(), id),
        r matches Some(v) ==> is_trail(graph.edges(), id, v@) && v@ == trail_of(graph.edges(), id),
{
    proof {
        use_type_invariant(graph);
    }
    let ghost e = graph.edges();
    let end = PlayerPortalGraphNode::End.key();
    let into_end = key_graph_predecessors(&graph.map, end);
    let mut nodes: Vec<NodeKey> = Vec::new();
    let mut k: usize = 0;
    while k < into_end.len()
        invariant
            e == graph.edges(),
            e == graph_edges(graph.map),
            end == end_key(),
            k <= into_end@.len(),
            into_end@.no_duplicates(),
            forall|b: NodeKey| #[trigger]
                into_end@.contains(b) == (e.contains_key((b, end)) && b != end),
            forall|n: NodeKey| #[trigger]
                nodes@.contains(n) == (exists|j: int|
                    0 <= j < k && into_end@[j] == n && e[(n, end)] == id.0),
            forall|i: int, j: int| 0 <= i < j < nodes@.len() ==> nodes@[i] != nodes@[j],
            forall|i: int| 0 <= i < nodes@.len() ==> e.contains_key((#[trigger] nodes@[i], end)),
        decreases into_end@.len() - k,
    {
        let n = into_end[k];
        assert(into_end@.contains(n));
        let w = key_graph_edge_weight(&graph.map, n, end).unwrap();
        if w == id.0 {
            proof {
                assert forall|i: int| 0 <= i < nodes@.len() implies nodes@[i] != n by {
                    assert(nodes@.contains(nodes@[i]));
                    let j = choose|j: int| 0 <= j < k && into_end@[j] == nodes@[i] && e[(nodes@[i], end)] == id.0;
                    assert(into_end@[j] != into_end@[k as int]);
                }
            }
            let ghost before = nodes@;
            nodes.push(n);
            proof {
                assert forall|m: NodeKey| #[trigger] nodes@.contains(m) == (exists|j: int|
                    0 <= j < k + 1 && into_end@[j] == m && e[(m, end)] == id.0) by {
                    if nodes@.contains(m) && m != n {
                        let i = choose|i: int| 0 <= i < nodes@.len() && nodes@[i] == m;
                        assert(i < before.len());
                        assert(before[i] == m);
                        assert(before.contains(m));
                    }
                    if exists|j: int| 0 <= j < k + 1 && into_end@[j] == m && e[(m, end)] == id.0 {
                        let j = choose|j: int| 0 <= j < k + 1 && into_end@[j] == m && e[(m, end)] == id.0;
                        if j < k {
                            assert(before.contains(m));
                            let i = choose|i: int| 0 <= i < before.len() && before[i] == m;
                            assert(nodes@[i] == m);
                        } else {
                            assert(nodes@[before.len() as int] == m);
                        }
                    }
                }
            }
        } else {
            proof {
                assert forall|m: NodeKey| #[trigger] nodes@.contains(m) == (exists|j: int|
                    0 <= j < k + 1 && into_end@[j] == m && e[(m, end)] == id.0) by {
                    if exists|j: int| 0 <= j < k + 1 && into_end@[j] == m && e[(m, end)] == id.0 {
                        let j = choose|j: int| 0 <= j < k + 1 && into_end@[j] == m && e[(m, end)] == id.0;
                        assert(j < k);
                    }
                }
            }
        }
        k += 1;
    }
    if nodes.len() == 0 {
        proof {
            if exits(e, id) {
                let (s0, p0) = choose|s: Seq<Id>, p: Seq<NodeKey>| #[trigger] walk_determined(e, id, s, p);
                let n = p0[0];
                assert(e.contains_key((n, end_key())) && e[(n, end_key())] == id.0);
                assert(into_end@.contains(n));
                let j = choose|j: int| 0 <= j < into_end@.len() && into_end@[j] == n;
                assert(nodes@.contains(n));
            }
        }
        return None;
    }
    proof {
        if nodes@.len() > 1 {
            assert(nodes@[0] != nodes@[1]);
            assert(nodes@.contains(nodes@[0]));
            assert(nodes@.contains(nodes@[1]));
        }
    }
    let mut node = nodes[0];
    let ghost s0: Seq<Id>;
    let ghost p0: Seq<NodeKey>;
    proof {
        assert(nodes@.contains(node));
        let j0 = choose|j: int| 0 <= j < k && into_end@[j] == node && e[(node, end)] == id.0;
        assert(into_end@.contains(into_end@[j0]));
        assert(node != end_key());
        assert(e.contains_key((node, end_key())) && e[(node, end_key())] == id.0);
        assert(exits(e, id));
        let (a0, b0) = choose|s: Seq<Id>, p: Seq<NodeKey>| #[trigger] walk_determined(e, id, s, p);
        s0 = a0;
        p0 = b0;
        assert(e.contains_key((p0[0], end_key())));
    }
    let mut edges: Vec<Id> = Vec::new();
    edges.push(id);
    let ghost mut j: int = 0;
    loop
        invariant
            e == graph.edges(),
            e == graph_edges(graph.map),
            incoming_kept(graph.map),
            one_exit(e, id),
            walk_determined(e, id, s0, p0),
            0 <= j < p0.len(),
            node == p0[j],
            edges@ == s0.take(j + 1),
        ensures
            edges@ == s0,
        decreases p0.len() - j,
    {
        let preds = key_graph_predecessors(&graph.map, node);
        if preds.len() == 0 {
            proof {
                if j + 1 < p0.len() {
                    let i = j + 1;
                    assert(p0[j] == p0[j] && p0[i] == p0[i]);
                    assert(e.contains_key((p0[i], p0[j])));
                    assert(p0[i] != p0[j]);
                    assert(graph_incoming(graph.map).contains_key(node)
                        && graph_incoming(graph.map)[node].contains(p0[i]));
                    assert(preds@.contains(p0[i]));
                }
                assert(s0.take(j + 1) =~= s0);
            }
            break;
        }
        let new_node = preds[0];
        proof {
            assert(preds@.contains(new_node));
            assert(e.contains_key((new_node, node)));
            if j + 1 == p0.len() {
                assert(!e.contains_key((new_node, p0.last())));
            }
            let i = j + 1;
            assert(p0[j] == p0[j] && p0[i] == p0[i]);
            assert(e.contains_key((p0[i], p0[j])));
            assert(new_node == p0[i]);
        }
        let w = key_graph_edge_weight(&graph.map, new_node, node).unwrap();
        edges.push(Id(w));
        proof {
            let i = j + 1;
            assert(s0[i].0 == w);
            assert(edges@ =~= s0.take(i + 1));
            j = i;
        }
        node = new_node;
    }
    proof {
        assert(trail_along(e, id, s0, p0));
        assert(is_trail(e, id, edges@));
        law_trail_unique(e, id, edges@, trail_of(e, id));
    }
    Some(edges)
}

/// The index of the latest holding of `player_id` that the graph records: `None` where it
/// has no `Held(player_id, 0)`, else the last of the unbroken run from there.
pub fn find_latest_held_index(graph: &ItemPortalGraph, player_id: Id) -> (r: Option<usize>)
    requires
        graph.nodes().len() < usize::MAX,
    ensures
        r is None <==> !graph.nodes().contains(held_key(player_id, 0)),
        r matches Some(last) ==> held_run(graph.nodes(), player_id, last as nat) && last
            < graph.nodes().len(),
{
    proof {
        use_type_invariant(graph);
    }
    if !graph.contains_node(ItemPortalGraphNode::Held(player_id, 0)) {
        return None;
    }
    proof {
        lemma_held_bound(graph.nodes(), player_id, 0, 1);
    }
    let mut last: usize = 0;
    loop
        invariant
            graph.nodes().finite(),
            graph.nodes().len() < usize::MAX,
            forall|j: nat| j <= last ==> graph.nodes().contains(#[trigger] held_key(player_id, j)),
            last + 1 <= graph.nodes().len(),
        ensures
            held_run(graph.nodes(), player_id, last as nat),
            graph.nodes().contains(held_key(player_id, 0)),
            last + 1 <= graph.nodes().len(),
        decreases graph.nodes().len() - last,
    {
        if !graph.contains_node(ItemPortalGraphNode::Held(player_id, last + 1)) {
            break;
        }
        last = last + 1;
        proof {
            lemma_held_bound(graph.nodes(), player_id, 0, (last + 1) as nat);
        }
    }
    Some(last)
}

/// The latest holding of `player_id` (see `find_latest_held_index`).
pub fn find_latest_held(graph: &ItemPortalGraph, player_id: Id) -> (r: Option<ItemPortalGraphNode>)
    requires
        graph.nodes().len() < usize::MAX,
    ensures
        r is None <==> !graph.nodes().contains(held_key(player_id, 0)),
        r matches Some(n) ==> n matches ItemPortalGraphNode::Held(q, last) && q == player_id
            && held_run(graph.nodes(), player_id, last as nat) && last < graph.nodes().len(),
{
    match find_latest_held_index(graph, player_id) {
        Some(i) => Some(ItemPortalGraphNode::Held(player_id, i)),
        None => None,
    }
}

/// The holdings along the trail of `id` (see `held_nodes_for`); `None` where `id` has no
/// trail.
pub fn player_held_nodes(graph: &ItemPortalGraph, player_graph: &PlayerPortalGraph, id: Id) -> (r:
    Option<Vec<ItemPortalGraphNode>>)
    requires
        one_exit(player_graph.edges(), id),
        trail_walkable(player_graph.edges(), id),
        graph.nodes().len() < usize::MAX,
    ensures
        r is None <==> !exits(player_graph.edges(), id),
        r matches Some(v) ==> v@ == held_nodes_for(graph.nodes(), trail_of(player_graph.edges(), id))
            && v@.len() >= 1,
{
    proof {
        use_type_invariant(graph);
    }
    let player_ids = match find_trail_from_origin(player_graph, id) {
        Some(v) => v,
        None => return None,
    };
    let ghost nodes = graph.nodes();
    let mut held_nodes: Vec<ItemPortalGraphNode> = Vec::new();
    let mut t: usize = 0;
    while t < player_ids.len()
        invariant
            nodes == graph.nodes(),
            nodes.finite(),
            nodes.len() < usize::MAX,
            t <= player_ids@.len(),
            held_nodes@ == held_nodes_for(nodes, player_ids@.take(t as int)),
            held_nodes@.len() >= t,
        decreases player_ids@.len() - t,
    {
        let player_id = player_ids[t];
        let ghost base = held_nodes@;
        held_nodes.push(ItemPortalGraphNode::Held(player_id, 0));
        let mut i: usize = 1;
        loop
            invariant
                nodes == graph.nodes(),
                nodes.finite(),
                nodes.len() < usize::MAX,
                1 <= i,
                i <= nodes.len() + 1,
                forall|j: nat| 1 <= j < i ==> nodes.contains(#[trigger] held_key(player_id, j)),
                held_nodes@ == base + Seq::new(i as nat, |j: int| ItemPortalGraphNode::Held(player_id, j as usize)),
            ensures
                held_run(nodes, player_id, (i - 1) as nat),
                held_nodes@ == base + Seq::new(i as nat, |j: int| ItemPortalGraphNode::Held(player_id, j as usize)),
            decreases nodes.len() + 1 - i,
        {
            if !graph.contains_node(ItemPortalGraphNode::Held(player_id, i)) {
                break;
            }
            proof {
                lemma_held_bound(nodes, player_id, 1, i as nat);
            }
            held_nodes.push(ItemPortalGraphNode::Held(player_id, i));
            i += 1;
            proof {
                assert(held_nodes@ =~= base + Seq::new(i as nat, |j: int| ItemPortalGraphNode::Held(player_id, j as usize)));
            }
        }
        proof {
            lemma_held_count(nodes, player_id, (i - 1) as nat);
            let tk = player_ids@.take(t + 1);
            assert(tk.drop_last() =~= player_ids@.take(t as int));
            assert(tk.last() == player_id);
            assert(run_nodes(player_id, (i - 1) as nat) =~= Seq::new(i as nat, |j: int| ItemPortalGraphNode::Held(player_id, j as usize)));
        }
        t += 1;
    }
    proof {
        assert(player_ids@.take(player_ids@.len() as int) =~= player_ids@);
        let p = choose|p: Seq<NodeKey>| #[trigger] trail_along(player_graph.edges(), id, player_ids@, p);
    }
    Some(held_nodes)
}

/// A walk that fits `add_along` fits it up to each of its prefixes.
proof fn lemma_add_fits_prefix(e: Map<(NodeKey, NodeKey), u64>, s: Seq<NodeKey>, count: nat, k: int)
    requires
        add_along_fits(e, s, count),
        0 <= k <= s.len(),
    ensures
        add_along_fits(e, s.take(k), count),
    decreases s.len() - k,
{
    if k < s.len() {
        assert(s.take(k + 1).drop_last() =~= s.take(k));
        if k + 1 == s.len() {
            assert(s.take(k + 1) =~= s);
        } else {
            lemma_add_fits_prefix(e, s, count, k + 1);
        }
        assert(add_along_fits(e, s.take(k + 1), count));
    } else {
        assert(s.take(k) =~= s);
    }
}

/// A walk that is fit for `take_along` is fit up to each of its prefixes.
proof fn lemma_take_ok_prefix(e: Map<(NodeKey, NodeKey), u64>, s: Seq<NodeKey>, count: nat, k: int)
    requires
        take_along_ok(e, s, count),
        0 <= k <= s.len(),
    ensures
        take_along_ok(e, s.take(k), count),
    decreases s.len() - k,
{
    if k < s.len() {
        assert(s.take(k + 1).drop_last() =~= s.take(k));
        if k + 1 == s.len() {
            assert(s.take(k + 1) =~= s);
        } else {
            lemma_take_ok_prefix(e, s, count, k + 1);
        }
        assert(take_along_ok(e, s.take(k + 1), count));
    } else {
        assert(s.take(k) =~= s);
    }
}

/// Adds `count` items of the graph's kind to what the player `id` held, through its whole
/// trail: along each step between its consecutive holdings (see `add_along`).
pub fn wish(graph: &mut ItemPortalGraph, player_graph: &PlayerPortalGraph, id: Id, count: usize)
    requires
        one_exit(player_graph.edges(), id),
        trail_walkable(player_graph.edges(), id),
        exits(player_graph.edges(), id),
        old(graph).nodes().len() < usize::MAX,
        add_along_fits(
            old(graph).edges(),
            keys_of(held_nodes_for(old(graph).nodes(), trail_of(player_graph.edges(), id))),
            count as nat,
        ),
    ensures
        final(graph).edges() == add_along(
            old(graph).edges(),
            keys_of(held_nodes_for(old(graph).nodes(), trail_of(player_graph.edges(), id))),
            count as nat,
        ),
        final(graph).nodes() == nodes_along(
            old(graph).nodes(),
            keys_of(held_nodes_for(old(graph).nodes(), trail_of(player_graph.edges(), id))),
        ),
{
    let held_nodes = player_held_nodes(graph, player_graph, id).unwrap();
    let ghost keys = keys_of(held_nodes@);
    let ghost e0 = graph.edges();
    let ghost n0 = graph.nodes();
    let mut i: usize = 1;
    proof {
        assert(keys.take(1).len() < 2);
    }
    while i < held_nodes.len()
        invariant
            1 <= i,
            held_nodes@.len() >= 1 ==> i <= held_nodes@.len(),
            keys == keys_of(held_nodes@),
            add_along_fits(e0, keys, count as nat),
            graph.edges() == add_along(e0, keys.take(i as int), count as nat),
            graph.nodes() == nodes_along(n0, keys.take(i as int)),
        decreases held_nodes@.len() - i,
    {
        proof {
            use_type_invariant(&*graph);
            lemma_add_fits_prefix(e0, keys, count as nat, i + 1);
            let tk = keys.take(i + 1);
            assert(tk.drop_last() =~= keys.take(i as int));
            assert(tk[tk.len() - 2] == held_nodes@[i - 1].spec_key());
            assert(tk[tk.len() - 1] == held_nodes@[i as int].spec_key());
        }
        let a = held_nodes[i - 1].key();
        let b = held_nodes[i].key();
        match graph.key_edge_weight(a, b) {
            Some(w) => {
                graph.add_key_edge(a, b, w + count);
            },
            None => {
                graph.add_key_edge(a, b, count);
            },
        }
        i += 1;
    }
    proof {
        if held_nodes@.len() >= 1 {
            assert(keys.take(held_nodes@.len() as int) =~= keys);
        }
    }
}

/// Takes `count` items of the graph's kind from what the player `id` held, through its
/// whole trail: from each step between its consecutive holdings (see `take_along`).
pub fn unwish(graph: &mut ItemPortalGraph, player_graph: &PlayerPortalGraph, id: Id, count: usize)
    requires
        one_exit(player_graph.edges(), id),
        trail_walkable(player_graph.edges(), id),
        exits(player_graph.edges(), id),
        old(graph).nodes().len() < usize::MAX,
        take_along_ok(
            old(graph).edges(),
            keys_of(held_nodes_for(old(graph).nodes(), trail_of(player_graph.edges(), id))),
            count as nat,
        ),
    ensures
        final(graph).edges() == take_along(
            old(graph).edges(),
            keys_of(held_nodes_for(old(graph).nodes(), trail_of(player_graph.edges(), id))),
            count as nat,
        ),
        final(graph).nodes() == old(graph).nodes(),
{
    let held_nodes = player_held_nodes(graph, player_graph, id).unwrap();
    let ghost keys = keys_of(held_nodes@);
    let ghost e0 = graph.edges();
    let ghost n0 = graph.nodes();
    let mut i: usize = 1;
    proof {
        assert(keys.take(1).len() < 2);
    }
    while i < held_nodes.len()
        invariant
            1 <= i,
            held_nodes@.len() >= 1 ==> i <= held_nodes@.len(),
            keys == keys_of(held_nodes@),
            take_along_ok(e0, keys, count as nat),
            graph.edges() == take_along(e0, keys.take(i as int), count as nat),
            graph.nodes() == n0,
        decreases held_nodes@.len() - i,
    {
        proof {
            use_type_invariant(&*graph);
            lemma_take_ok_prefix(e0, keys, count as nat, i + 1);
            let tk = keys.take(i + 1);
            assert(tk.drop_last() =~= keys.take(i as int));
            assert(tk[tk.len() - 2] == held_nodes@[i - 1].spec_key());
            assert(tk[tk.len() - 1] == held_nodes@[i as int].spec_key());
        }
        let a = held_nodes[i - 1].key();
        let b = held_nodes[i].key();
        let existing = graph.key_edge_weight(a, b).unwrap();
        if existing == count {
            graph.remove_key_edge(a, b);
        } else {
            graph.add_key_edge(a, b, existing - count);
            proof {
                assert(graph.nodes() =~= n0);
            }
        }
        i += 1;
    }
    proof {
        if held_nodes@.len() >= 1 {
            assert(keys.take(held_nodes@.len() as int) =~= keys);
        }
    }
}

/// Wishes for `count` items where it is positive, takes back `-count` where it is negative
/// (see `wish` and `unwish`), and does nothing for 0.
pub fn signed_wish(graph: &mut ItemPortalGraph, player_graph: &PlayerPortalGraph, id: Id, count: i32)
    requires
        count != i32::MIN,
        count != 0 ==> {
            &&& one_exit(player_graph.edges(), id)
            &&& trail_walkable(player_graph.edges(), id)
            &&& exits(player_graph.edges(), id)
            &&& old(graph).nodes().len() < usize::MAX
        },
        count > 0 ==> add_along_fits(
            old(graph).edges(),
            keys_of(held_nodes_for(old(graph).nodes(), trail_of(player_graph.edges(), id))),
            count as nat,
        ),
        count < 0 ==> take_along_ok(
            old(graph).edges(),
            keys_of(held_nodes_for(old(graph).nodes(), trail_of(player_graph.edges(), id))),
            (-count) as nat,
        ),
    ensures
        count == 0 ==> final(graph).edges() == old(graph).edges() && final(graph).nodes() == old(
            graph,
        ).nodes(),
        count > 0 ==> final(graph).edges() == add_along(
            old(graph).edges(),
            keys_of(held_nodes_for(old(graph).nodes(), trail_of(player_graph.edges(), id))),
            count as nat,
        ) && final(graph).nodes() == nodes_along(
            old(graph).nodes(),
            keys_of(held_nodes_for(old(graph).nodes(), trail_of(player_graph.edges(), id))),
        ),
        count < 0 ==> final(graph).edges() == take_along(
            old(graph).edges(),
            keys_of(held_nodes_for(old(graph).nodes(), trail_of(player_graph.edges(), id))),
            (-count) as nat,
        ) && final(graph).nodes() == old(graph).nodes(),
{
    if count < 0 {
        unwish(graph, player_graph, id, (-count) as usize);
    } else if count > 0 {
        wish(graph, player_graph, id, count as usize);
    }
}

/// Where the path of `player` starts.
pub open spec fn origin_of(e: Map<(NodeKey, NodeKey), u64>, player: Id) -> NodeKey {
    choose|a: NodeKey|
        #[trigger] e.contains_key((a, end_key())) && a != end_key() && e[(a, end_key())] == player.0
}

/// Closes the loop of `player`, who jumped into the portal `portal`: the edge that took
/// `player` from where it started to `End` takes it into the portal instead. Refused, with
/// the graph so changed, where nothing then leads from the portal to `End` (the loop would
/// never end).
pub fn close_portal(graph: &mut PlayerPortalGraph, player: Id, portal: Id) -> (r: Result<(), GameError>)
    requires
        exits(old(graph).edges(), player),
        one_exit(old(graph).edges(), player),
        !(old(graph).edges().contains_key((end_key(), end_key())) && old(graph).edges()[(
            end_key(),
            end_key(),
        )] == player.0),
    ensures
        final(graph).edges() == old(graph).edges().remove(
            (origin_of(old(graph).edges(), player), end_key()),
        ).insert(
            (origin_of(old(graph).edges(), player), PlayerPortalGraphNode::Portal(portal).spec_key()),
            player.0,
        ),
        final(graph).nodes() == old(graph).nodes().insert(origin_of(old(graph).edges(), player)).insert(
            PlayerPortalGraphNode::Portal(portal).spec_key(),
        ),
        r is Err <==> !key_reachable(
            final(graph).edges(),
            PlayerPortalGraphNode::Portal(portal).spec_key(),
            end_key(),
        ),
        r is Err ==> r == Err::<(), GameError>(GameError::Message("Created infinite loop")),
{
    proof {
        use_type_invariant(&*graph);
    }
    let ghost e = graph.edges();
    let ghost origin = origin_of(e, player);
    let end = PlayerPortalGraphNode::End.key();
    let all = key_graph_all_edges(&graph.map);
    proof {
        assert(e.contains_key((origin, end_key())) && e[(origin, end_key())] == player.0);
        assert(all@.contains((origin, end_key(), player.0)));
    }
    let mut k: usize = 0;
    let mut found: Option<NodeKey> = None;
    while k < all.len()
        invariant
            k <= all@.len(),
            forall|a: NodeKey, b: NodeKey, w: u64|
                #[trigger] all@.contains((a, b, w)) == (e.contains_key((a, b)) && e[(a, b)] == w),
            one_exit(e, player),
            !(e.contains_key((end_key(), end_key())) && e[(end_key(), end_key())] == player.0),
            end == end_key(),
            origin == origin_of(e, player),
            origin != end_key(),
            e.contains_key((origin, end_key())) && e[(origin, end_key())] == player.0,
            all@.contains((origin, end_key(), player.0)),
            found matches Some(a) ==> a == origin,
            found is None ==> forall|j: int|
                0 <= j < k ==> !(all@[j].2 == player.0 && #[trigger] all@[j].1 == end),
        ensures
            found matches Some(a) ==> a == origin,
            found is None ==> k == all@.len() && forall|j: int|
                0 <= j < k ==> !(all@[j].2 == player.0 && #[trigger] all@[j].1 == end),
        decreases all@.len() - k,
    {
        let (a, b, w) = all[k];
        if w == player.0 && b.0 == end.0 && b.1 == end.1 && b.2 == end.2 {
            proof {
                let t = all@[k as int];
                assert(all@.contains((t.0, t.1, t.2)));
                assert(b == end);
                assert(e.contains_key((a, end_key())) && e.contains_key((origin, end_key())));
            }
            found = Some(a);
            break;
        }
        k += 1;
    }
    proof {
        if found is None {
            let j = choose|j: int| 0 <= j < all@.len() && all@[j] == (origin, end_key(), player.0);
            assert(all@[j].1 == end);
        }
    }
    let origin_key = found.unwrap();
    let portal_key = PlayerPortalGraphNode::Portal(portal).key();
    let mut map = key_graph_new();
    std::mem::swap(&mut map, &mut graph.map);
    key_graph_remove_edge(&mut map, origin_key, end);
    key_graph_add_edge(&mut map, origin_key, portal_key, player.0);
    graph.map = map;
    if !key_graph_has_path(&graph.map, portal_key, end) {
        return Err(GameError::Message("Created infinite loop"));
    }
    Ok(())
}

impl ItemPortalGraph {
    #[verifier::type_invariant]
    spec fn well_kept(&self) -> bool {
        &&& graph_nodes(self.map).finite()
        &&& forall|a: NodeKey, b: NodeKey|
            #[trigger] graph_edges(self.map).contains_key((a, b)) ==> graph_nodes(self.map).contains(a)
                && graph_nodes(self.map).contains(b)
        &&& forall|k: (NodeKey, NodeKey)|
            #[trigger] graph_edges(self.map).contains_key(k) ==> graph_edges(self.map)[k] <= usize::MAX
        &&& incoming_kept(self.map)
    }

    /// The edges, by the keys of their two nodes, with the number of items along them.
    pub closed spec fn edges(&self) -> Map<(NodeKey, NodeKey), u64> {
        graph_edges(self.map)
    }

    /// The keys of the nodes.
    pub closed spec fn nodes(&self) -> Set<NodeKey> {
        graph_nodes(self.map)
    }

    pub fn new() -> (g: Self)
        ensures
            g.nodes().is_empty(),
            g.edges().dom().is_empty(),
    {
        ItemPortalGraph { map: key_graph_new() }
    }

    pub fn contains_node(&self, n: ItemPortalGraphNode) -> (r: bool)
        ensures
            r == self.nodes().contains(n.spec_key()),
    {
        key_graph_contains_node(&self.map, n.key())
    }

    /// Whether following the edges that carry items from `origin` reaches a node out of which
    /// none do.
    pub fn reaches_sink(&self, origin: ItemPortalGraphNode) -> (r: bool)
        ensures
            r == drains(self.edges(), origin.spec_key()),
    {
        let ghost e = self.edges();
        let reached = key_graph_reach_nonzero(&self.map, origin.key());
        let all = key_graph_all_edges(&self.map);
        let mut i: usize = 0;
        while i < reached.len()
            invariant
                e == graph_edges(self.map),
                i <= reached@.len(),
                forall|n: NodeKey|
                    #[trigger] reached@.contains(n) == key_reachable(nonzero_edges(e), origin.spec_key(), n),
                forall|a: NodeKey, b: NodeKey, w: u64|
                    #[trigger] all@.contains((a, b, w)) == (e.contains_key((a, b)) && e[(a, b)] == w),
                forall|j: int| 0 <= j < i ==> !is_sink(e, #[trigger] reached@[j]),
            decreases reached@.len() - i,
        {
            let n = reached[i];
            let mut has_exit = false;
            let mut k: usize = 0;
            while k < all.len()
                invariant
                    k <= all@.len(),
                    forall|a: NodeKey, b: NodeKey, w: u64|
                        #[trigger] all@.contains((a, b, w)) == (e.contains_key((a, b)) && e[(a, b)] == w),
                    has_exit ==> !is_sink(e, n),
                    !has_exit ==> forall|j: int| 0 <= j < k ==> !(#[trigger] all@[j].0 == n && all@[j].2 != 0),
                decreases all@.len() - k,
            {
                let (a, b, w) = all[k];
                if a.0 == n.0 && a.1 == n.1 && a.2 == n.2 && carries_items(w) {
                    proof {
                        assert(all@.contains(all@[k as int]));
                        assert(nonzero_edges(e).contains_key((n, b)));
                    }
                    has_exit = true;
                }
                k += 1;
            }
            if !has_exit {
                proof {
                    assert forall|m: NodeKey| !#[trigger] nonzero_edges(e).contains_key((n, m)) by {
                        if nonzero_edges(e).contains_key((n, m)) {
                            assert(all@.contains((n, m, e[(n, m)])));
                            let j = choose|j: int| 0 <= j < all@.len() && all@[j] == (n, m, e[(n, m)]);
                            assert(all@[j].0 == n);
                        }
                    }
                    assert(reached@.contains(n));
                    assert(key_reachable(nonzero_edges(e), origin.spec_key(), n));
                }
                return true;
            }
            i += 1;
        }
        proof {
            assert forall|n: NodeKey| !(#[trigger] key_reachable(nonzero_edges(e), origin.spec_key(), n)
                && is_sink(e, n)) by {
                if key_reachable(nonzero_edges(e), origin.spec_key(), n) {
                    assert(reached@.contains(n));
                    let j = choose|j: int| 0 <= j < reached@.len() && reached@[j] == n;
                    assert(!is_sink(e, reached@[j]));
                }
            }
        }
        false
    }

    /// Sets the number of items along the edge from `a` to `b` to `count`, adding the edge and
    /// its nodes where missing; gives back the number it had.
    pub fn add_edge(&mut self, a: ItemPortalGraphNode, b: ItemPortalGraphNode, count: usize) -> (r:
        Option<usize>)
        ensures
            final(self).edges() == old(self).edges().insert((a.spec_key(), b.spec_key()), count as u64),
            final(self).nodes() == old(self).nodes().insert(a.spec_key()).insert(b.spec_key()),
            r == (match edge_lookup(old(self).edges(), a.spec_key(), b.spec_key()) {
                Some(w) => Some(w as usize),
                None => None,
            }),
    {
        self.add_key_edge(a.key(), b.key(), count)
    }

    fn add_key_edge(&mut self, a: NodeKey, b: NodeKey, count: usize) -> (r: Option<usize>)
        ensures
            final(self).edges() == old(self).edges().insert((a, b), count as u64),
            final(self).nodes() == old(self).nodes().insert(a).insert(b),
            r == (match edge_lookup(old(self).edges(), a, b) {
                Some(w) => Some(w as usize),
                None => None,
            }),
    {
        proof {
            use_type_invariant(&*self);
        }
        let mut map = key_graph_new();
        std::mem::swap(&mut map, &mut self.map);
        let ghost old_map = map;
        let r = key_graph_add_edge(&mut map, a, b, count as u64);
        proof {
            lemma_incoming_after_add(old_map, map, a, b, count as u64);
        }
        self.map = map;
        match r {
            Some(w) => Some(w as usize),
            None => None,
        }
    }

    /// Takes out the edge from `a` to `b`, giving back its number of items; the nodes stay.
    pub fn remove_edge(&mut self, a: ItemPortalGraphNode, b: ItemPortalGraphNode) -> (r: Option<
        usize,
    >)
        ensures
            final(self).edges() == old(self).edges().remove((a.spec_key(), b.spec_key())),
            final(self).nodes() == old(self).nodes(),
            r == (match edge_lookup(old(self).edges(), a.spec_key(), b.spec_key()) {
                Some(w) => Some(w as usize),
                None => None,
            }),
    {
        self.remove_key_edge(a.key(), b.key())
    }

    fn remove_key_edge(&mut self, a: NodeKey, b: NodeKey) -> (r: Option<usize>)
        ensures
            final(self).edges() == old(self).edges().remove((a, b)),
            final(self).nodes() == old(self).nodes(),
            r == (match edge_lookup(old(self).edges(), a, b) {
                Some(w) => Some(w as usize),
                None => None,
            }),
    {
        proof {
            use_type_invariant(&*self);
        }
        let mut map = key_graph_new();
        std::mem::swap(&mut map, &mut self.map);
        let ghost old_map = map;
        let r = key_graph_remove_edge(&mut map, a, b);
        proof {
            lemma_incoming_after_remove(old_map, map, a, b);
        }
        self.map = map;
        match r {
            Some(w) => Some(w as usize),
            None => None,
        }
    }

    /// The number of items along the edge from `a` to `b`, if there is one.
    pub fn edge_weight(&self, a: ItemPortalGraphNode, b: ItemPortalGraphNode) -> (r: Option<usize>)
        ensures
            r == (match edge_lookup(self.edges(), a.spec_key(), b.spec_key()) {
                Some(w) => Some(w as usize),
                None => None,
            }),
    {
        self.key_edge_weight(a.key(), b.key())
    }

    fn key_edge_weight(&self, a: NodeKey, b: NodeKey) -> (r: Option<usize>)
        ensures
            r == (match edge_lookup(self.edges(), a, b) {
                Some(w) => Some(w as usize),
                None => None,
            }),
    {
        match key_graph_edge_weight(&self.map, a, b) {
            Some(w) => Some(w as usize),
            None => None,
        }
    }
}

} // verus!
