use vstd::prelude::*;
use crate::double_map::DoubleMap;
use crate::ecs::Ecs;
use crate::error::GameError;
use crate::inventory::HypotheticalInventory;
use crate::cells::{cell_count, cells_count, lemma_cells_count_update, stack, InventoryCell};
use crate::counts::count_or_zero;
use crate::inventory::{ActualInventory, Inventory};
use crate::item::Item;
use crate::portal_graph::{
    add_along, add_along_fits, exits, held_nodes_for, keys_of, nodes_along, one_exit, trail_of,
    take_along, take_along_ok, trail_walkable, unwish, wish, ItemPortalGraph, ItemPortalGraphNode, PlayerPortalGraph,
    PlayerPortalGraphNode,
};
use crate::types::{Entity, FrameWishResult, Id, ItemDrop, Point, Portal};

verus! {

/// The label that the player graph gives to the edges taken by the entity `e`: its number
/// and its version, side by side.
pub open spec fn entity_label(e: Entity) -> Id {
    Id((e.idx as u64 * 0x1_0000_0000 + e.version as u64) as u64)
}

/// The label of the edges taken by the entity `e` (see `entity_label`).
pub fn entity_id(e: Entity) -> (id: Id)
    ensures
        id == entity_label(e),
{
    let idx = e.idx as u64;
    let version = e.version as u64;
    assert(idx * 0x1_0000_0000 + version <= u64::MAX) by (nonlinear_arith)
        requires
            idx < 0x1_0000_0000,
            version < 0x1_0000_0000,
    ;
    Id(idx * 0x1_0000_0000 + version)
}

/// The edges of an item graph that may not exist yet: none where it does not.
pub open spec fn graph_edges_or_none(g: Option<ItemPortalGraph>) -> Map<
    ((u8, u64, u64), (u8, u64, u64)),
    u64,
> {
    match g {
        Some(g) => g.edges(),
        None => Map::empty(),
    }
}

/// The nodes of an item graph that may not exist yet: none where it does not.
pub open spec fn graph_nodes_or_none(g: Option<ItemPortalGraph>) -> Set<(u8, u64, u64)> {
    match g {
        Some(g) => g.nodes(),
        None => Set::empty(),
    }
}

/// The item that a wish into a slot holding `cell` is for: the one clicked on where the
/// slot is empty, the one in the slot where nothing was clicked on; none where neither is
/// given (a click on an occupied slot is not asked of a wish).
pub open spec fn wished_item(cell: Option<InventoryCell>, clicked: Option<Item>) -> Option<Item> {
    match (clicked, cell) {
        (Some(item), None) => Some(item),
        (None, Some(c)) => Some(c.item),
        _ => None,
    }
}

/// What a wish of one `item` by `player` asks of the frame's graphs: `player` has one exit
/// and a walkable trail, and the item graph (empty where there is none yet) can take one
/// more item along the holdings on that trail.
pub open spec fn wish_fits(frame: GameFrame, player: Entity) -> bool {
    let e = frame.player_portal_graph.edges();
    let id = entity_label(player);
    &&& one_exit(e, id)
    &&& trail_walkable(e, id)
    &&& exits(e, id)
    &&& graph_nodes_or_none(frame.item_portal_graph).len() < usize::MAX
    &&& add_along_fits(
        graph_edges_or_none(frame.item_portal_graph),
        keys_of(held_nodes_for(graph_nodes_or_none(frame.item_portal_graph), trail_of(e, id))),
        1,
    )
}

/// What taking back one wish of `player` asks of the frame's graphs: as for a wish, but the
/// item graph must be able to give one item back along the holdings on the trail.
pub open spec fn unwish_fits(frame: GameFrame, player: Entity) -> bool {
    let e = frame.player_portal_graph.edges();
    let id = entity_label(player);
    &&& one_exit(e, id)
    &&& trail_walkable(e, id)
    &&& exits(e, id)
    &&& graph_nodes_or_none(frame.item_portal_graph).len() < usize::MAX
    &&& take_along_ok(
        graph_edges_or_none(frame.item_portal_graph),
        keys_of(held_nodes_for(graph_nodes_or_none(frame.item_portal_graph), trail_of(e, id))),
        1,
    )
}

/// Whether `HypotheticalInventory::unwish` of slot `ix` succeeds on `h`: the slot holds an
/// item whose recorded minimum and wishes are both positive.
pub open spec fn unwish_accepted(h: HypotheticalInventory, ix: int) -> bool {
    h.cells@[ix] matches Some(c) && count_or_zero(h.minima@, c.item) > 0 && count_or_zero(
        h.constraints@,
        c.item,
    ) > 0
}

/// What `GameFrame::wish` asks of the frame `f0`: a slot of the inventory, a player, and
/// where the player's inventory is hypothetical and there is an item to wish for, room for
/// one more of it in the slot and in the counts, and a trail to carry it along.
pub open spec fn wish_allowed(f0: GameFrame, player: Entity, ix: usize, clicked_item: Option<
    Item,
>) -> bool {
    &&& ix < 32
    &&& f0.ecs.players().contains_key(player)
    &&& (f0.ecs.players()[player] matches Inventory::Hypothetical(h) ==> {
        let cell = h.cells@[ix as int];
        &&& !(clicked_item is Some && cell is Some)
        &&& (wished_item(cell, clicked_item) matches Some(item) ==> {
            &&& (cell matches Some(c) ==> c.count < 255)
            &&& count_or_zero(h.minima@, item) < usize::MAX
            &&& count_or_zero(h.constraints@, item) < usize::MAX
            &&& wish_fits(f0, player)
        })
    })
}

/// How `GameFrame::wish` leaves the frame `f1`, from `f0`, and what it returns: nothing
/// but the player's inventory and the item graph changes.
pub open spec fn wish_outcome(
    f0: GameFrame,
    f1: GameFrame,
    player: Entity,
    ix: usize,
    clicked_item: Option<Item>,
    r: FrameWishResult,
) -> bool {
    &&& f1.ecs.live() == f0.ecs.live()
    &&& f1.ecs.positions() == f0.ecs.positions()
    &&& f1.ecs.players().dom() == f0.ecs.players().dom()
    &&& (forall|x: Entity| #[trigger] f0.ecs.players().contains_key(x) && x != player
        ==> f1.ecs.players()[x] == f0.ecs.players()[x])
    &&& f1.portals == f0.portals
    &&& f1.items == f0.items
    &&& f1.player_portal_graph == f0.player_portal_graph
    &&& match f0.ecs.players()[player] {
        Inventory::Actual(_) => r == FrameWishResult::Success && f1.ecs.players()[player]
            == f0.ecs.players()[player] && f1.item_portal_graph == f0.item_portal_graph,
        Inventory::Hypothetical(h) => match wished_item(h.cells@[ix as int], clicked_item) {
            None => r == FrameWishResult::NoItem && f1.ecs.players()[player]
                == f0.ecs.players()[player] && f1.item_portal_graph == f0.item_portal_graph,
            Some(item) => {
                let keys = keys_of(
                    held_nodes_for(
                        graph_nodes_or_none(f0.item_portal_graph),
                        trail_of(f0.player_portal_graph.edges(), entity_label(player)),
                    ),
                );
                &&& r == FrameWishResult::Success
                &&& f1.ecs.players()[player] matches Inventory::Hypothetical(h2) && h2.cells@
                    == h.cells@.update(
                    ix as int,
                    stack(item, cell_count(h.cells@[ix as int], item) + 1int),
                ) && h2.minima@ == h.minima@.insert(
                    item,
                    (count_or_zero(h.minima@, item) + 1) as usize,
                ) && h2.constraints@ == h.constraints@.insert(
                    item,
                    (count_or_zero(h.constraints@, item) + 1) as usize,
                )
                &&& f1.item_portal_graph is Some
                &&& graph_edges_or_none(f1.item_portal_graph) == add_along(
                    graph_edges_or_none(f0.item_portal_graph),
                    keys,
                    1,
                )
                &&& graph_nodes_or_none(f1.item_portal_graph) == nodes_along(
                    graph_nodes_or_none(f0.item_portal_graph),
                    keys,
                )
            },
        },
    }
}

/// One moment of the game: the open portals, the items lying about, the graph of players
/// and portals, the graph that follows the items (there is one kind of item, so there is at
/// most one such graph; it is made when first needed), and the entities.
pub struct GameFrame {
    pub portals: DoubleMap<Portal>,
    pub items: DoubleMap<ItemDrop>,
    pub player_portal_graph: PlayerPortalGraph,
    pub item_portal_graph: Option<ItemPortalGraph>,
    pub ecs: Ecs,
}

impl GameFrame {
    pub fn new() -> (f: Self)
        ensures
            f.portals.by_id() == Map::<Id, Portal>::empty(),
            f.items.by_id() == Map::<Id, ItemDrop>::empty(),
            f.items.by_position() == Map::<Point, Id>::empty(),
            f.player_portal_graph.edges().dom().is_empty(),
            f.player_portal_graph.nodes().is_empty(),
            f.item_portal_graph is None,
            f.ecs.live() == Set::<Entity>::empty(),
            f.ecs.players() == Map::<Entity, Inventory>::empty(),
            f.ecs.positions() == Map::<Entity, Point>::empty(),
            f.ecs.has_room(),
    {
        GameFrame {
            portals: DoubleMap::new(),
            items: DoubleMap::new(),
            player_portal_graph: PlayerPortalGraph::new(),
            item_portal_graph: None,
            ecs: Ecs::new(),
        }
    }

    /// Puts `drop` on the map, recording in the item graph that `prior_item_count` items
    /// lead from the beginning to it. The edge is recorded even where the drop is then
    /// refused because its tile or its id is taken.
    pub fn insert_item_drop(&mut self, drop: ItemDrop, prior_item_count: usize) -> (r: Result<
        (),
        GameError,
    >)
        ensures
            final(self).item_portal_graph is Some,
            graph_edges_or_none(final(self).item_portal_graph) == graph_edges_or_none(
                old(self).item_portal_graph,
            ).insert(
                (
                    ItemPortalGraphNode::Beginning.spec_key(),
                    ItemPortalGraphNode::Dropped(drop.id).spec_key(),
                ),
                prior_item_count as u64,
            ),
            graph_nodes_or_none(final(self).item_portal_graph) == graph_nodes_or_none(
                old(self).item_portal_graph,
            ).insert(ItemPortalGraphNode::Beginning.spec_key()).insert(
                ItemPortalGraphNode::Dropped(drop.id).spec_key(),
            ),
            old(self).items.by_position().contains_key(drop.position) ==> r == Err::<(), GameError>(
                GameError::Message("Position occupied"),
            ),
            !old(self).items.by_position().contains_key(drop.position) && old(
                self,
            ).items.by_id().contains_key(drop.id) ==> r == Err::<(), GameError>(
                GameError::Message("Id already exists"),
            ),
            r is Ok <==> !old(self).items.by_position().contains_key(drop.position) && !old(
                self,
            ).items.by_id().contains_key(drop.id),
            r is Ok ==> final(self).items.by_id() == old(self).items.by_id().insert(drop.id, drop)
                && final(self).items.by_position() == old(self).items.by_position().insert(
                drop.position,
                drop.id,
            ),
            r is Err ==> final(self).items.by_id() == old(self).items.by_id()
                && final(self).items.by_position() == old(self).items.by_position(),
            final(self).portals == old(self).portals,
            final(self).player_portal_graph == old(self).player_portal_graph,
            final(self).ecs == old(self).ecs,
    {
        let mut graph = match self.item_portal_graph.take() {
            Some(g) => g,
            None => ItemPortalGraph::new(),
        };
        proof {
            assert(graph.edges() == graph_edges_or_none(old(self).item_portal_graph));
            assert(graph.nodes() =~= graph_nodes_or_none(old(self).item_portal_graph));
        }
        graph.add_edge(ItemPortalGraphNode::Beginning, ItemPortalGraphNode::Dropped(drop.id), prior_item_count);
        self.item_portal_graph = Some(graph);
        self.items.insert(drop)
    }

    /// Makes a player at `position` with an empty actual inventory, who came from the
    /// beginning and is still around: an edge from `Beginning` to `End` labelled with it.
    pub fn insert_player(&mut self, position: Point) -> (r: Result<Entity, GameError>)
        requires
            old(self).ecs.has_room(),
        ensures
            r matches Ok(e) && {
                &&& !old(self).ecs.live().contains(e)
                &&& final(self).ecs.live() == old(self).ecs.live().insert(e)
                &&& final(self).ecs.positions() == old(self).ecs.positions().insert(e, position)
                &&& final(self).ecs.players().dom() == old(self).ecs.players().dom().insert(e)
                &&& (forall|x: Entity| #[trigger] old(self).ecs.players().contains_key(x)
                    ==> final(self).ecs.players()[x] == old(self).ecs.players()[x])
                &&& (final(self).ecs.players()[e] matches Inventory::Actual(a) && a.cells@ == Seq::new(
                    32,
                    |i: int| None::<crate::cells::InventoryCell>,
                ))
                &&& final(self).player_portal_graph.edges() == old(self).player_portal_graph.edges().insert(
                    (PlayerPortalGraphNode::Beginning.spec_key(), PlayerPortalGraphNode::End.spec_key()),
                    entity_label(e).0,
                )
                &&& final(self).player_portal_graph.nodes() == old(self).player_portal_graph.nodes().insert(
                    PlayerPortalGraphNode::Beginning.spec_key(),
                ).insert(PlayerPortalGraphNode::End.spec_key())
            },
            final(self).portals == old(self).portals,
            final(self).items == old(self).items,
            final(self).item_portal_graph == old(self).item_portal_graph,
    {
        let inventory = Inventory::Actual(ActualInventory::new());
        let player = self.ecs.insert_player(position, inventory);
        self.player_portal_graph.add_edge(
            PlayerPortalGraphNode::Beginning,
            PlayerPortalGraphNode::End,
            entity_id(player),
        );
        Ok(player)
    }

    /// `player` wishes for one item into slot `ix` of its inventory: the item clicked on, or
    /// the item already in the slot. A player with an actual inventory cannot wish; nothing
    /// changes, and the wish counts as done. Where there is no item to wish for, nothing
    /// changes and `NoItem` says so. Otherwise the inventory records the wish (see
    /// `HypotheticalInventory::wish`) and the item graph carries one more item along the
    /// holdings on the player's trail (see `wish`).
    pub fn wish(&mut self, player: Entity, ix: usize, clicked_item: Option<Item>) -> (r:
        FrameWishResult)
        requires
            wish_allowed(*old(self), player, ix, clicked_item),
        ensures
            wish_outcome(*old(self), *final(self), player, ix, clicked_item, r),
    {
        let ghost frame0 = *self;
        let inventory = self.ecs.replace_inventory(player, Inventory::Actual(ActualInventory::new()));
        match inventory {
            Inventory::Actual(a) => {
                self.ecs.replace_inventory(player, Inventory::Actual(a));
                proof {
                    assert(self.ecs.players() =~= frame0.ecs.players());
                }
                FrameWishResult::Success
            },
            Inventory::Hypothetical(mut h) => {
                let item = match (clicked_item, h.cells[ix]) {
                    (None, None) => {
                        self.ecs.replace_inventory(player, Inventory::Hypothetical(h));
                        proof {
                            assert(self.ecs.players() =~= frame0.ecs.players());
                        }
                        return FrameWishResult::NoItem;
                    },
                    (Some(item), None) => item,
                    (None, Some(cell)) => cell.item,
                    (Some(item), Some(_)) => item,
                };
                let mut graph = match self.item_portal_graph.take() {
                    Some(g) => g,
                    None => ItemPortalGraph::new(),
                };
                proof {
                    assert(graph.edges() == graph_edges_or_none(frame0.item_portal_graph));
                    assert(graph.nodes() =~= graph_nodes_or_none(frame0.item_portal_graph));
                }
                let _ = h.wish(item, ix);
                wish(&mut graph, &self.player_portal_graph, entity_id(player), 1);
                self.item_portal_graph = Some(graph);
                self.ecs.replace_inventory(player, Inventory::Hypothetical(h));
                proof {
                    assert(self.ecs.players().dom() =~= frame0.ecs.players().dom());
                }
                FrameWishResult::Success
            },
        }
    }

    /// `player` takes back one wish for the item in slot `ix`. A player with an actual
    /// inventory cannot; nothing changes. An empty slot gives `NoItem`. Otherwise the
    /// inventory takes the wish back (see `HypotheticalInventory::unwish`); where it refuses,
    /// its message comes back as the error, and the item graph, which is made if missing, is
    /// left as it was; where it accepts, one item is taken back along the holdings on the
    /// player's trail (see `unwish`).
    pub fn unwish(&mut self, player: Entity, ix: usize) -> (r: Result<FrameWishResult, GameError>)
        requires
            ix < 32,
            old(self).ecs.players().contains_key(player),
            old(self).ecs.players()[player] matches Inventory::Hypothetical(h) ==> {
                &&& (h.cells@[ix as int] matches Some(c) ==> (count_or_zero(h.minima@, c.item) > 0
                    && count_or_zero(h.constraints@, c.item) > 0 ==> c.count > 0))
                &&& (unwish_accepted(h, ix as int) ==> unwish_fits(*old(self), player))
            },
        ensures
            final(self).ecs.live() == old(self).ecs.live(),
            final(self).ecs.positions() == old(self).ecs.positions(),
            final(self).ecs.players().dom() == old(self).ecs.players().dom(),
            forall|x: Entity| #[trigger] old(self).ecs.players().contains_key(x) && x != player
                ==> final(self).ecs.players()[x] == old(self).ecs.players()[x],
            final(self).portals == old(self).portals,
            final(self).items == old(self).items,
            final(self).player_portal_graph == old(self).player_portal_graph,
            match old(self).ecs.players()[player] {
                Inventory::Actual(_) => r == Ok::<FrameWishResult, GameError>(FrameWishResult::Success)
                    && final(self).ecs.players()[player] == old(self).ecs.players()[player]
                    && final(self).item_portal_graph == old(self).item_portal_graph,
                Inventory::Hypothetical(h) => match h.cells@[ix as int] {
                    None => r == Ok::<FrameWishResult, GameError>(FrameWishResult::NoItem)
                        && final(self).ecs.players()[player] == old(self).ecs.players()[player]
                        && final(self).item_portal_graph == old(self).item_portal_graph,
                    Some(c) => {
                        let e = old(self).player_portal_graph.edges();
                        let keys = keys_of(
                            held_nodes_for(
                                graph_nodes_or_none(old(self).item_portal_graph),
                                trail_of(e, entity_label(player)),
                            ),
                        );
                        let m = count_or_zero(h.minima@, c.item);
                        &&& final(self).item_portal_graph is Some
                        &&& (m == 0 ==> r == Err::<FrameWishResult, GameError>(
                            GameError::Message("Can't un-wish: minimum value 0"),
                        ))
                        &&& (m > 0 && count_or_zero(h.constraints@, c.item) == 0 ==> r == Err::<
                            FrameWishResult,
                            GameError,
                        >(GameError::Message("Can't un-wish: never wished in the first place")))
                        &&& (r is Ok <==> unwish_accepted(h, ix as int))
                        &&& (r is Ok ==> r == Ok::<FrameWishResult, GameError>(
                            FrameWishResult::Success,
                        ))
                        &&& final(self).ecs.players()[player] matches Inventory::Hypothetical(h2)
                            && h2.cells@ == (if r is Ok {
                            h.cells@.update(
                                ix as int,
                                if c.count == 1 {
                                    None
                                } else {
                                    stack(c.item, c.count - 1)
                                },
                            )
                        } else {
                            h.cells@
                        })
                        &&& graph_edges_or_none(final(self).item_portal_graph) == (if r is Ok {
                            take_along(graph_edges_or_none(old(self).item_portal_graph), keys, 1)
                        } else {
                            graph_edges_or_none(old(self).item_portal_graph)
                        })
                        &&& graph_nodes_or_none(final(self).item_portal_graph)
                            == graph_nodes_or_none(old(self).item_portal_graph)
                    },
                },
            },
    {
        let ghost frame0 = *self;
        let inventory = self.ecs.replace_inventory(player, Inventory::Actual(ActualInventory::new()));
        match inventory {
            Inventory::Actual(a) => {
                self.ecs.replace_inventory(player, Inventory::Actual(a));
                proof {
                    assert(self.ecs.players() =~= frame0.ecs.players());
                }
                Ok(FrameWishResult::Success)
            },
            Inventory::Hypothetical(mut h) => {
                if h.cells[ix].is_none() {
                    self.ecs.replace_inventory(player, Inventory::Hypothetical(h));
                    proof {
                        assert(self.ecs.players() =~= frame0.ecs.players());
                    }
                    return Ok(FrameWishResult::NoItem);
                }
                let ghost h0 = h;
                let mut graph = match self.item_portal_graph.take() {
                    Some(g) => g,
                    None => ItemPortalGraph::new(),
                };
                proof {
                    assert(graph.edges() == graph_edges_or_none(frame0.item_portal_graph));
                    assert(graph.nodes() =~= graph_nodes_or_none(frame0.item_portal_graph));
                }
                let outcome = h.unwish(ix);
                let r = match outcome {
                    Ok(()) => {
                        unwish(&mut graph, &self.player_portal_graph, entity_id(player), 1);
                        Ok(FrameWishResult::Success)
                    },
                    Err(msg) => Err(GameError::Message(msg)),
                };
                self.item_portal_graph = Some(graph);
                self.ecs.replace_inventory(player, Inventory::Hypothetical(h));
                r
            },
        }
    }
}

/// Whatever the source of the wished item (the click on an empty slot, or the stack already
/// in the slot), a wish in a hypothetical inventory succeeds, the player then holds one more
/// of that item and has wished for one more, and the item graph carries exactly one more
/// item along the holdings on the player's trail.
pub proof fn law_frame_wish_carries_item(
    f0: GameFrame,
    f1: GameFrame,
    player: Entity,
    ix: usize,
    clicked_item: Option<Item>,
    r: FrameWishResult,
    item: Item,
)
    requires
        wish_allowed(f0, player, ix, clicked_item),
        wish_outcome(f0, f1, player, ix, clicked_item, r),
        f0.ecs.players()[player] matches Inventory::Hypothetical(h) && wished_item(
            h.cells@[ix as int],
            clicked_item,
        ) == Some(item),
    ensures
        r == FrameWishResult::Success,
        f1.ecs.players()[player] matches Inventory::Hypothetical(h2) && (
        f0.ecs.players()[player] matches Inventory::Hypothetical(h) && {
            &&& cells_count(h2.cells@, item) == cells_count(h.cells@, item) + 1
            &&& count_or_zero(h2.constraints@, item) == count_or_zero(h.constraints@, item) + 1
        }),
        graph_edges_or_none(f1.item_portal_graph) == add_along(
            graph_edges_or_none(f0.item_portal_graph),
            keys_of(
                held_nodes_for(
                    graph_nodes_or_none(f0.item_portal_graph),
                    trail_of(f0.player_portal_graph.edges(), entity_label(player)),
                ),
            ),
            1,
        ),
{
    let h = f0.ecs.players()[player]->Hypothetical_0;
    let h2 = f1.ecs.players()[player]->Hypothetical_0;
    let cell = h.cells@[ix as int];
    let new_cell = stack(item, cell_count(cell, item) + 1int);
    assert(cell_count(new_cell, item) == cell_count(cell, item) + 1);
    lemma_cells_count_update(h.cells@, ix as int, new_cell, item);
}

} // verus!
