use vstd::prelude::*;
use crate::error::GameError;
use crate::item::Item;
use crate::portal_graph::{
    drains, find_latest_held, find_latest_held_index, held_count, held_key, lemma_held_count,
    ItemPortalGraph, ItemPortalGraphNode,
};
use crate::types::Id;

verus! {

/// The index of the holding of `player` that a step builds on: the latest one that the nodes
/// record, or 0 where they record none.
pub open spec fn latest_held(nodes: Set<(u8, u64, u64)>, player: Id) -> nat {
    if nodes.contains(held_key(player, 0)) {
        held_count(nodes, player)
    } else {
        0
    }
}

/// The index of the latest holding of `player`, or 0 where there is none.
fn latest_held_index(graph: &ItemPortalGraph, player: Id) -> (i: usize)
    requires
        graph.nodes().len() < usize::MAX,
    ensures
        i == latest_held(graph.nodes(), player),
        i + 1 < usize::MAX,
{
    match find_latest_held_index(graph, player) {
        Some(last) => {
            proof {
                lemma_held_count(graph.nodes(), player, last as nat);
            }
            last
        },
        None => 0,
    }
}

/// Records that `player` picked up the drop `drop_id` while holding `prior_count` items of
/// this kind: a new holding follows the latest one, fed by the drop (one item) and by the
/// latest holding (`prior_count` items).
pub fn record_pick_up(graph: &mut ItemPortalGraph, player: Id, drop_id: Id, prior_count: usize)
    requires
        old(graph).nodes().len() < usize::MAX,
    ensures
        final(graph).edges() == old(graph).edges().insert(
            (
                ItemPortalGraphNode::Dropped(drop_id).spec_key(),
                held_key(player, latest_held(old(graph).nodes(), player) + 1),
            ),
            1u64,
        ).insert(
            (
                held_key(player, latest_held(old(graph).nodes(), player)),
                held_key(player, latest_held(old(graph).nodes(), player) + 1),
            ),
            prior_count as u64,
        ),
        final(graph).nodes() == old(graph).nodes().insert(
            ItemPortalGraphNode::Dropped(drop_id).spec_key(),
        ).insert(held_key(player, latest_held(old(graph).nodes(), player) + 1)).insert(
            held_key(player, latest_held(old(graph).nodes(), player)),
        ),
{
    let old_ix = latest_held_index(graph, player);
    let new_ix = old_ix + 1;
    graph.add_edge(
        ItemPortalGraphNode::Dropped(drop_id),
        ItemPortalGraphNode::Held(player, new_ix),
        1,
    );
    graph.add_edge(
        ItemPortalGraphNode::Held(player, old_ix),
        ItemPortalGraphNode::Held(player, new_ix),
        prior_count,
    );
    proof {
        assert(final(graph).nodes() =~= old(graph).nodes().insert(
            ItemPortalGraphNode::Dropped(drop_id).spec_key(),
        ).insert(held_key(player, (old_ix + 1) as nat)).insert(held_key(player, old_ix as nat)));
    }
}

/// Records that `player` dropped one item of this kind as the drop `drop_id`, keeping
/// `remaining_count`: the latest holding feeds the drop (one item) and a new holding after it
/// (`remaining_count` items).
pub fn record_drop(graph: &mut ItemPortalGraph, player: Id, drop_id: Id, remaining_count: usize)
    requires
        old(graph).nodes().len() < usize::MAX,
    ensures
        final(graph).edges() == old(graph).edges().insert(
            (
                held_key(player, latest_held(old(graph).nodes(), player)),
                ItemPortalGraphNode::Dropped(drop_id).spec_key(),
            ),
            1u64,
        ).insert(
            (
                held_key(player, latest_held(old(graph).nodes(), player)),
                held_key(player, latest_held(old(graph).nodes(), player) + 1),
            ),
            remaining_count as u64,
        ),
        final(graph).nodes() == old(graph).nodes().insert(
            held_key(player, latest_held(old(graph).nodes(), player)),
        ).insert(ItemPortalGraphNode::Dropped(drop_id).spec_key()).insert(
            held_key(player, latest_held(old(graph).nodes(), player) + 1),
        ),
{
    let ix = latest_held_index(graph, player);
    let latest = ItemPortalGraphNode::Held(player, ix);
    graph.add_edge(latest, ItemPortalGraphNode::Dropped(drop_id), 1);
    graph.add_edge(latest, ItemPortalGraphNode::Held(player, ix + 1), remaining_count);
    proof {
        assert(final(graph).nodes() =~= old(graph).nodes().insert(held_key(player, ix as nat)).insert(
            ItemPortalGraphNode::Dropped(drop_id).spec_key(),
        ).insert(held_key(player, (ix + 1) as nat)));
    }
}

/// When `prior` jumps into a portal that `post` came out of, the items `prior` held last pass
/// to the first holding of `post`: an edge carrying `count` items joins them. Nothing changes
/// where the graph records no holding of `prior`.
pub fn link_holdings(graph: &mut ItemPortalGraph, prior: Id, post: Id, count: usize)
    requires
        old(graph).nodes().len() < usize::MAX,
    ensures
        old(graph).nodes().contains(held_key(prior, 0)) ==> final(graph).edges() == old(
            graph,
        ).edges().insert(
            (held_key(prior, held_count(old(graph).nodes(), prior)), held_key(post, 0)),
            count as u64,
        ) && final(graph).nodes() == old(graph).nodes().insert(held_key(post, 0)),
        !old(graph).nodes().contains(held_key(prior, 0)) ==> final(graph).edges() == old(
            graph,
        ).edges() && final(graph).nodes() == old(graph).nodes(),
{
    if let Some(origin) = find_latest_held(graph, prior) {
        let ghost nodes = graph.nodes();
        proof {
            let last = origin->Held_1;
            lemma_held_count(nodes, prior, last as nat);
            assert(nodes.contains(held_key(prior, last as nat)));
        }
        graph.add_edge(origin, ItemPortalGraphNode::Held(post, 0), count);
        proof {
            assert(graph.nodes() =~= nodes.insert(held_key(post, 0)));
        }
    }
}

/// After `prior` jumped, the items it held last must still end up somewhere: following the
/// edges that carry items from its latest holding has to reach a node out of which none do.
/// Refuses with `LoopFor(item)` where it does not; accepts where the graph records no holding
/// of `prior`.
pub fn check_item_flow(graph: &ItemPortalGraph, item: Item, prior: Id) -> (r: Result<(), GameError>)
    requires
        graph.nodes().len() < usize::MAX,
    ensures
        r is Err <==> (graph.nodes().contains(held_key(prior, 0)) && !drains(
            graph.edges(),
            held_key(prior, held_count(graph.nodes(), prior)),
        )),
        r matches Err(err) ==> err == GameError::LoopFor(item),
{
    if let Some(origin) = find_latest_held(graph, prior) {
        proof {
            lemma_held_count(graph.nodes(), prior, origin->Held_1 as nat);
        }
        if !graph.reaches_sink(origin) {
            return Err(GameError::LoopFor(item));
        }
    }
    Ok(())
}

} // verus!
