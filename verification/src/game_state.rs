use vstd::prelude::*;
use crate::error::GameError;
use crate::game_frame::{wish_allowed, wish_outcome, GameFrame};
use crate::inventory::{ActualInventory, Inventory};
use crate::cells::{cell_count, stack};
use crate::counts::count_or_zero;
use crate::item::Item;
use crate::ecs::Ecs;
use crate::plan::{rotate_plan, rotated, CachablePlan, Plan};
use crate::tree::{down_step, push_step, Zipper};
use crate::types::{Direction, Entity, FrameWishResult, Move, Point, Selection};

verus! {

/// The keys that the game reacts to; every other key is `Other`.
#[derive(Clone, Copy, Debug, PartialEq, Eq, Structural)]
pub enum KeyCode {
    W,
    A,
    S,
    D,
    Q,
    G,
    Space,
    I,
    T,
    Equals,
    Minus,
    Tab,
    Back,
    Return,
    Escape,
    Other,
}

/// What a key press leaves to be done with the game's frames, which the caller holds.
#[derive(Clone, Copy, Debug, PartialEq, Eq)]
pub enum KeyRequest {
    Nothing,
    /// Wish for the item in slot `.1` of the player `.0` (see `after_wish`).
    Wish(Entity, usize),
    /// Take back a wish for the item in slot `.1` of the player `.0`.
    Unwish(Entity, usize),
    /// Tell the user of this refusal.
    Report(GameError),
    /// Move back to the previous frame.
    Up,
    /// Apply the current plan to the current frame (see `after_apply`).
    ApplyPlan,
}

/// The move that a key plans for a selected player.
pub open spec fn key_move(key: KeyCode) -> Option<Move> {
    match key {
        KeyCode::W => Some(Move::Direction(Direction::Up)),
        KeyCode::A => Some(Move::Direction(Direction::Left)),
        KeyCode::S => Some(Move::Direction(Direction::Down)),
        KeyCode::D => Some(Move::Direction(Direction::Right)),
        KeyCode::Q => Some(Move::Jump),
        KeyCode::G => Some(Move::PickUp),
        _ => None,
    }
}

/// The point one step in `d` leads to from the origin.
pub open spec fn step_from_origin(d: Direction) -> Point {
    Point { x: 0, y: 0 }.after_step(d)
}

/// Law: the direction keys form a cross: `W` and `S` plan opposite steps along the rows
/// (`W` towards lower `y`), `A` and `D` opposite steps along the columns (`A` towards lower
/// `x`); `Q` plans a jump, `G` a pick-up, and no other key plans a move.
pub proof fn law_direction_keys()
    ensures
        key_move(KeyCode::W) matches Some(Move::Direction(d)) && step_from_origin(d) == (Point {
            x: 0,
            y: -1i32,
        }),
        key_move(KeyCode::S) matches Some(Move::Direction(d)) && step_from_origin(d) == (Point {
            x: 0,
            y: 1,
        }),
        key_move(KeyCode::A) matches Some(Move::Direction(d)) && step_from_origin(d) == (Point {
            x: -1i32,
            y: 0,
        }),
        key_move(KeyCode::D) matches Some(Move::Direction(d)) && step_from_origin(d) == (Point {
            x: 1,
            y: 0,
        }),
        key_move(KeyCode::Q) == Some(Move::Jump),
        key_move(KeyCode::G) == Some(Move::PickUp),
        forall|k: KeyCode|
            k != KeyCode::W && k != KeyCode::A && k != KeyCode::S && k != KeyCode::D && k
                != KeyCode::Q && k != KeyCode::G ==> #[trigger] key_move(k) is None,
{
}

/// The plan that `c` stands for among the recorded futures `children`.
pub open spec fn plan_of<T>(c: CachablePlan, children: Seq<(Plan, T)>) -> Plan {
    match c {
        CachablePlan::Novel(p) => p,
        CachablePlan::Old(ix) => children[ix as int].0,
    }
}

/// The current plan was edited: it is a new plan with `moves` and `portals` as its contents.
pub open spec fn edited_to(c: CachablePlan, moves: Map<Entity, Move>, portals: Set<crate::types::Point>) -> bool {
    c matches CachablePlan::Novel(p) && p.moves@ == moves && p.portals@ == portals
}

/// The key is one that the selected thing reacts to.
pub open spec fn selection_key(selected: Selection, key: KeyCode) -> bool {
    match selected {
        Selection::Player(_) => key_move(key) is Some || key == KeyCode::Space || key == KeyCode::I,
        Selection::GridCell(_) => key == KeyCode::Q,
        Selection::Inventory(_, Some(_)) => key == KeyCode::T || key == KeyCode::Equals || key
            == KeyCode::Minus,
        _ => false,
    }
}

/// Reacts to a key: first as the selected thing does (a player plans a move or has its move
/// taken back, a tile gains or loses a portal, a slot plans a drop or asks for a wish), then
/// as the whole game does (`Tab` cycles the plans among the recorded futures
/// `history_children`, `Escape` goes back up the selection). What needs the game's frames is
/// handed back as a request.
pub fn key_down_event<T>(
    selected: &mut Selection,
    current_plan: &mut CachablePlan,
    history_children: &[(Plan, T)],
    key: KeyCode,
) -> (r: KeyRequest)
    requires
        *old(current_plan) matches CachablePlan::Old(ix) ==> ix < history_children@.len(),
    ensures
        ({
            let base = plan_of(*old(current_plan), history_children@);
            match *old(selected) {
                Selection::Player(pid) => {
                    &&& key_move(key) matches Some(mv) ==> edited_to(
                        *final(current_plan),
                        base.moves@.insert(pid, mv),
                        base.portals@,
                    )
                    &&& key == KeyCode::W ==> edited_to(
                        *final(current_plan),
                        base.moves@.insert(pid, Move::Direction(Direction::Up)),
                        base.portals@,
                    )
                    &&& key == KeyCode::A ==> edited_to(
                        *final(current_plan),
                        base.moves@.insert(pid, Move::Direction(Direction::Left)),
                        base.portals@,
                    )
                    &&& key == KeyCode::S ==> edited_to(
                        *final(current_plan),
                        base.moves@.insert(pid, Move::Direction(Direction::Down)),
                        base.portals@,
                    )
                    &&& key == KeyCode::D ==> edited_to(
                        *final(current_plan),
                        base.moves@.insert(pid, Move::Direction(Direction::Right)),
                        base.portals@,
                    )
                    &&& key == KeyCode::Q ==> edited_to(
                        *final(current_plan),
                        base.moves@.insert(pid, Move::Jump),
                        base.portals@,
                    )
                    &&& key == KeyCode::G ==> edited_to(
                        *final(current_plan),
                        base.moves@.insert(pid, Move::PickUp),
                        base.portals@,
                    )
                    &&& key == KeyCode::Space ==> edited_to(
                        *final(current_plan),
                        base.moves@.remove(pid),
                        base.portals@,
                    )
                    &&& key == KeyCode::I ==> *final(selected) == Selection::Inventory(pid, None)
                        && *final(current_plan) == *old(current_plan)
                },
                Selection::GridCell(pt) => key == KeyCode::Q ==> edited_to(
                    *final(current_plan),
                    base.moves@,
                    if base.portals@.contains(pt) {
                        base.portals@.remove(pt)
                    } else {
                        base.portals@.insert(pt)
                    },
                ),
                Selection::Inventory(pid, Some(ix)) => {
                    &&& key == KeyCode::T ==> edited_to(
                        *final(current_plan),
                        base.moves@.insert(pid, Move::Drop(ix)),
                        base.portals@,
                    )
                    &&& key == KeyCode::Equals ==> r == KeyRequest::Wish(pid, ix)
                        && *final(current_plan) == *old(current_plan)
                    &&& key == KeyCode::Minus ==> r == KeyRequest::Unwish(pid, ix)
                        && *final(current_plan) == *old(current_plan)
                },
                _ => true,
            }
        }),
        selection_key(*old(selected), key) ==> (key != KeyCode::I ==> *final(selected) == *old(
            selected,
        )) && (key != KeyCode::Equals && key != KeyCode::Minus ==> r == KeyRequest::Nothing),
        !selection_key(*old(selected), key) ==> {
            &&& key == KeyCode::Tab ==> (if history_children@.len() == 0 {
                r == KeyRequest::Report(GameError::Message("No future recorded: can't cycle plans"))
                    && *final(current_plan) == *old(current_plan)
            } else {
                r == KeyRequest::Nothing && *final(current_plan) == rotated(
                    *old(current_plan),
                    history_children@.len(),
                )
            }) && *final(selected) == *old(selected)
            &&& key == KeyCode::Back ==> r == KeyRequest::Up && *final(selected) == *old(selected)
                && *final(current_plan) == *old(current_plan)
            &&& key == KeyCode::Return ==> r == KeyRequest::ApplyPlan && *final(selected) == *old(
                selected,
            ) && *final(current_plan) == *old(current_plan)
            &&& key == KeyCode::Escape ==> r == KeyRequest::Nothing && *final(selected)
                == Selection::parent(*old(selected)) && *final(current_plan) == *old(current_plan)
            &&& (key != KeyCode::Tab && key != KeyCode::Back && key != KeyCode::Return && key
                != KeyCode::Escape) ==> r == KeyRequest::Nothing && *final(selected) == *old(
                selected,
            ) && *final(current_plan) == *old(current_plan)
        },
{
    let mut request = KeyRequest::Nothing;
    match *selected {
        Selection::Player(player_id) => {
            let new_move = match key {
                KeyCode::W => Some(Move::Direction(Direction::Up)),
                KeyCode::A => Some(Move::Direction(Direction::Left)),
                KeyCode::S => Some(Move::Direction(Direction::Down)),
                KeyCode::D => Some(Move::Direction(Direction::Right)),
                KeyCode::Q => Some(Move::Jump),
                KeyCode::G => Some(Move::PickUp),
                _ => None,
            };
            match new_move {
                Some(mv) => {
                    current_plan.cow(history_children).moves.insert(player_id, mv);
                },
                None => {
                    if key == KeyCode::Space {
                        current_plan.cow(history_children).moves.remove(&player_id);
                    } else if key == KeyCode::I {
                        *selected = Selection::Inventory(player_id, None);
                    }
                },
            }
        },
        Selection::GridCell(pt) => {
            if key == KeyCode::Q {
                if current_plan.get(history_children).portals.contains(&pt) {
                    current_plan.cow(history_children).portals.remove(&pt);
                } else {
                    current_plan.cow(history_children).portals.insert(pt);
                }
            }
        },
        Selection::Inventory(player_id, Some(ix)) => {
            if key == KeyCode::T {
                current_plan.cow(history_children).moves.insert(player_id, Move::Drop(ix));
            } else if key == KeyCode::Equals {
                request = KeyRequest::Wish(player_id, ix);
            } else if key == KeyCode::Minus {
                request = KeyRequest::Unwish(player_id, ix);
            }
        },
        Selection::Inventory(_, None) => {},
        Selection::Top | Selection::WishPicker(_, _) | Selection::WishPickerInventoryViewer(_, _, _) => {},
    }
    match key {
        KeyCode::Tab => {
            if let Err(err) = rotate_plan(current_plan, history_children.len()) {
                request = KeyRequest::Report(err);
            }
        },
        KeyCode::Back => {
            request = KeyRequest::Up;
        },
        KeyCode::Return => {
            request = KeyRequest::ApplyPlan;
        },
        KeyCode::Escape => selected.pop(),
        _ => {},
    }
    request
}

/// After the frame has been asked to wish for slot `ix` of `player`: where the slot had no
/// item to wish for, the user is to pick one.
pub fn after_wish(selected: &mut Selection, player: Entity, ix: usize, result: FrameWishResult)
    ensures
        result == FrameWishResult::NoItem ==> *final(selected) == Selection::WishPicker(player, ix),
        result == FrameWishResult::Success ==> *final(selected) == *old(selected),
{
    if let FrameWishResult::NoItem = result {
        *selected = Selection::WishPicker(player, ix);
    }
}

/// After the current plan was applied to the focused frame of `history`, giving `new_frame`:
/// a new plan is recorded as a new child of the focus, with `new_frame`, and editing starts
/// afresh; a recorded plan moves the focus down to its child, and editing goes on with the
/// last plan recorded there, if any.
pub fn after_apply<T>(current_plan: &mut CachablePlan, history: &mut Zipper<T, Plan>, new_frame: T)
    requires
        *old(current_plan) matches CachablePlan::Old(ix) ==> ix < old(history).focused().children@.len(),
    ensures
        match *old(current_plan) {
            CachablePlan::Novel(p) => {
                &&& final(history).steps() == old(history).steps().push(
                    push_step(old(history).focused(), p),
                )
                &&& final(history).focused().val == new_frame
                &&& final(history).focused().children@.len() == 0
                &&& *final(current_plan) matches CachablePlan::Novel(q) && q.moves@.dom().is_empty()
                    && q.portals@.is_empty()
            },
            CachablePlan::Old(ix) => {
                &&& final(history).steps() == old(history).steps().push(
                    down_step(old(history).focused().val, old(history).focused().children@, ix as int),
                )
                &&& final(history).focused() == old(history).focused().children@[ix as int].1
                &&& final(history).model() == old(history).model()
                &&& if final(history).focused().children@.len() == 0 {
                    *final(current_plan) matches CachablePlan::Novel(q) && q.moves@.dom().is_empty()
                        && q.portals@.is_empty()
                } else {
                    *final(current_plan) == CachablePlan::Old(
                        (final(history).focused().children@.len() - 1) as usize,
                    )
                }
            },
        },
{
    match current_plan {
        CachablePlan::Novel(plan) => {
            let mut old_plan = Plan::new();
            std::mem::swap(plan, &mut old_plan);
            history.push(new_frame, old_plan);
        },
        CachablePlan::Old(ix) => {
            let ix = *ix;
            let _ = history.down(ix);
            *current_plan = match history.focus().children.len() {
                0 => CachablePlan::new(),
                l => CachablePlan::Old(l - 1),
            };
        },
    }
}

/// `e` exists in `ecs` and is a player.
pub open spec fn is_player_in(ecs: Ecs, e: Entity) -> bool {
    ecs.live().contains(e) && ecs.players().contains_key(e)
}

/// Some player of `ecs` stands at `pt`.
pub open spec fn player_stands_at(ecs: Ecs, pt: Point) -> bool {
    exists|e: Entity| #[trigger] is_player_in(ecs, e) && ecs.positions().contains_key(e)
        && ecs.positions()[e] == pt
}

/// Brings the selection in line with the frame: a selected tile where a player stands
/// selects that player; a selection of a player that no longer exists falls back to `Top`,
/// and an inventory viewer whose viewed player is gone falls back to its wish picker (this
/// last rule wins where both players are gone).
pub fn validate_selection(selected: &mut Selection, frame: &GameFrame)
    ensures
        match *old(selected) {
            Selection::Top => *final(selected) == Selection::Top,
            Selection::GridCell(pt) => if player_stands_at(frame.ecs, pt) {
                *final(selected) matches Selection::Player(e) && is_player_in(frame.ecs, e)
                    && frame.ecs.positions().contains_key(e) && frame.ecs.positions()[e] == pt
            } else {
                *final(selected) == *old(selected)
            },
            Selection::WishPicker(p, _) | Selection::Inventory(p, _) | Selection::Player(p) => {
                *final(selected) == if is_player_in(frame.ecs, p) {
                    *old(selected)
                } else {
                    Selection::Top
                }
            },
            Selection::WishPickerInventoryViewer(p, ix, t) => {
                *final(selected) == if !is_player_in(frame.ecs, t) {
                    Selection::WishPicker(p, ix)
                } else if !is_player_in(frame.ecs, p) {
                    Selection::Top
                } else {
                    *old(selected)
                }
            },
        },
{
    match *selected {
        Selection::Top => {},
        Selection::GridCell(pt) => {
            let found = frame.ecs.player_at(pt);
            proof {
                if player_stands_at(frame.ecs, pt) {
                    let e = choose|e: Entity| #[trigger] is_player_in(frame.ecs, e)
                        && frame.ecs.positions().contains_key(e) && frame.ecs.positions()[e] == pt;
                    assert(frame.ecs.players().contains_key(e));
                }
            }
            if let Some(player) = found {
                *selected = Selection::Player(player);
                proof {
                    assert(is_player_in(frame.ecs, player));
                }
            }
        },
        Selection::WishPicker(p, _) | Selection::Inventory(p, _) | Selection::Player(p) => {
            if !frame.ecs.contains_player(&p) {
                *selected = Selection::Top;
            }
        },
        Selection::WishPickerInventoryViewer(p, ix, t) => {
            if !frame.ecs.contains_player(&p) {
                *selected = Selection::Top;
            }
            if !frame.ecs.contains_player(&t) {
                *selected = Selection::WishPicker(p, ix);
            }
        },
    }
}

/// The item lying at `tile` in `frame`, if any.
pub open spec fn item_at(frame: GameFrame, tile: Point) -> Option<Item> {
    if frame.items.by_position().contains_key(tile) {
        Some(frame.items.by_id()[frame.items.by_position()[tile]].item)
    } else {
        None
    }
}

/// A click on the tile `tile` of the world, while no inventory is on show. Picking the item
/// to wish for: a click on a player shows its inventory, a click on an item wishes for it
/// into the chosen slot (see `GameFrame::wish`) and selects that slot, a click on anything
/// else does nothing. Otherwise the click selects the player standing on the tile, or else
/// the tile itself.
pub fn click_tile(selected: &mut Selection, frame: &mut GameFrame, tile: Point)
    requires
        !(*old(selected) is Inventory),
        !(*old(selected) is WishPickerInventoryViewer),
        *old(selected) matches Selection::WishPicker(p, ix) ==> (!player_stands_at(
            old(frame).ecs,
            tile,
        ) && item_at(*old(frame), tile) is Some ==> wish_allowed(
            *old(frame),
            p,
            ix,
            item_at(*old(frame), tile),
        )),
    ensures
        match *old(selected) {
            Selection::WishPicker(p, ix) => if player_stands_at(old(frame).ecs, tile) {
                &&& *final(frame) == *old(frame)
                &&& *final(selected) matches Selection::WishPickerInventoryViewer(p2, ix2, t) && p2
                    == p && ix2 == ix && is_player_in(old(frame).ecs, t) && old(
                    frame,
                ).ecs.positions().contains_key(t) && old(frame).ecs.positions()[t] == tile
            } else if item_at(*old(frame), tile) is Some {
                &&& *final(selected) == Selection::Inventory(p, Some(ix))
                &&& exists|r: FrameWishResult| #[trigger] wish_outcome(
                    *old(frame),
                    *final(frame),
                    p,
                    ix,
                    item_at(*old(frame), tile),
                    r,
                )
            } else {
                *final(frame) == *old(frame) && *final(selected) == *old(selected)
            },
            _ => {
                &&& *final(frame) == *old(frame)
                &&& if player_stands_at(old(frame).ecs, tile) {
                    *final(selected) matches Selection::Player(e) && is_player_in(old(frame).ecs, e)
                        && old(frame).ecs.positions().contains_key(e) && old(
                        frame,
                    ).ecs.positions()[e] == tile
                } else {
                    *final(selected) == Selection::GridCell(tile)
                }
            },
        },
{
    let found = frame.ecs.player_at(tile);
    proof {
        if player_stands_at(frame.ecs, tile) {
            let e = choose|e: Entity| #[trigger] is_player_in(frame.ecs, e)
                && frame.ecs.positions().contains_key(e) && frame.ecs.positions()[e] == tile;
            assert(frame.ecs.players().contains_key(e));
        }
    }
    match *selected {
        Selection::WishPicker(p, ix) => {
            match found {
                Some(t) => {
                    proof {
                        assert(is_player_in(frame.ecs, t));
                    }
                    *selected = Selection::WishPickerInventoryViewer(p, ix, t);
                },
                None => {
                    let item = match frame.items.get_by_position(&tile) {
                        Some(drop) => drop.item,
                        None => {
                            return ;
                        },
                    };
                    let r = frame.wish(p, ix, Some(item));
                    proof {
                        assert(wish_outcome(*old(frame), *frame, p, ix, item_at(*old(frame), tile), r));
                    }
                    *selected = Selection::Inventory(p, Some(ix));
                },
            }
        },
        _ => {
            match found {
                Some(e) => {
                    proof {
                        assert(is_player_in(frame.ecs, e));
                    }
                    *selected = Selection::Player(e);
                },
                None => {
                    *selected = Selection::GridCell(tile);
                },
            }
        },
    }
}

/// A click on slot `slot` of the inventory on show (`None` for a click beside the slots).
/// Where a player's own inventory is on show, the click selects the slot. Where a player
/// is picking a wish from the inventory of `t`, a click on a slot of `t` holding an item
/// wishes for that item into the same slot of the player's hypothetical inventory (see
/// `HypotheticalInventory::wish`, whose refusal comes back as the error) and selects that
/// slot; a click on an empty slot, or beside the slots, does nothing.
pub fn click_slot(selected: &mut Selection, frame: &mut GameFrame, slot: Option<usize>) -> (r: Result<
    (),
    GameError,
>)
    requires
        *old(selected) is Inventory || *old(selected) is WishPickerInventoryViewer,
        *old(selected) matches Selection::WishPickerInventoryViewer(p, _, t) ==> (slot matches Some(
            ix,
        ) ==> {
            &&& ix < 32
            &&& old(frame).ecs.players().contains_key(t)
            &&& (old(frame).ecs.players()[t].cells_view()[ix as int] matches Some(c) ==> {
                &&& old(frame).ecs.players().contains_key(p)
                &&& old(frame).ecs.players()[p] matches Inventory::Hypothetical(h) && (
                h.cells@[ix as int] matches Some(d) ==> (d.item == c.item ==> d.count < 255))
                    && count_or_zero(h.minima@, c.item) < usize::MAX && count_or_zero(
                    h.constraints@,
                    c.item,
                ) < usize::MAX
            })
        }),
    ensures
        match *old(selected) {
            Selection::Inventory(p, _) => r is Ok && *final(selected) == Selection::Inventory(p, slot)
                && *final(frame) == *old(frame),
            Selection::WishPickerInventoryViewer(p, _, t) => match slot {
                None => r is Ok && *final(selected) == *old(selected) && *final(frame) == *old(frame),
                Some(ix) => match old(frame).ecs.players()[t].cells_view()[ix as int] {
                    None => r is Ok && *final(selected) == *old(selected) && *final(frame) == *old(
                        frame,
                    ),
                    Some(c) => {
                        let h = old(frame).ecs.players()[p]->Hypothetical_0;
                        let conflict = h.cells@[ix as int] matches Some(d) && d.item != c.item;
                        &&& (r is Err <==> conflict)
                        &&& (r is Err ==> r == Err::<(), GameError>(
                            GameError::Message("Tried to insert conflicting item"),
                        ) && *final(selected) == *old(selected))
                        &&& (r is Ok ==> *final(selected) == Selection::Inventory(p, Some(ix)))
                        &&& final(frame).portals == old(frame).portals
                        &&& final(frame).items == old(frame).items
                        &&& final(frame).player_portal_graph == old(frame).player_portal_graph
                        &&& final(frame).item_portal_graph == old(frame).item_portal_graph
                        &&& final(frame).ecs.live() == old(frame).ecs.live()
                        &&& final(frame).ecs.positions() == old(frame).ecs.positions()
                        &&& final(frame).ecs.players().dom() == old(frame).ecs.players().dom()
                        &&& (forall|x: Entity| #[trigger] old(frame).ecs.players().contains_key(x)
                            && x != p ==> final(frame).ecs.players()[x] == old(frame).ecs.players()[x])
                        &&& (r is Err ==> final(frame).ecs.players()[p] == old(frame).ecs.players()[p])
                        &&& (r is Ok ==> (final(frame).ecs.players()[p] matches Inventory::Hypothetical(h2)
                            && h2.cells@ == h.cells@.update(
                            ix as int,
                            stack(c.item, cell_count(h.cells@[ix as int], c.item) + 1int),
                        ) && h2.minima@ == h.minima@.insert(
                            c.item,
                            (count_or_zero(h.minima@, c.item) + 1) as usize,
                        ) && h2.constraints@ == h.constraints@.insert(
                            c.item,
                            (count_or_zero(h.constraints@, c.item) + 1) as usize,
                        )))
                    },
                },
            },
            _ => true,
        },
{
    match *selected {
        Selection::Inventory(p, _) => {
            *selected = Selection::Inventory(p, slot);
            Ok(())
        },
        Selection::WishPickerInventoryViewer(p, _, t) => {
            let ix = match slot {
                None => {
                    return Ok(());
                },
                Some(ix) => ix,
            };
            let item = match frame.ecs.inventory_cell(&t, ix) {
                None => {
                    return Ok(());
                },
                Some(cell) => cell.item,
            };
            let ghost f0 = *frame;
            let inventory = frame.ecs.replace_inventory(p, Inventory::Actual(ActualInventory::new()));
            match inventory {
                Inventory::Hypothetical(mut h) => {
                    let outcome = h.wish(item, ix);
                    frame.ecs.replace_inventory(p, Inventory::Hypothetical(h));
                    proof {
                        assert(frame.ecs.players().dom() =~= f0.ecs.players().dom());
                    }
                    match outcome {
                        Ok(()) => {
                            *selected = Selection::Inventory(p, Some(ix));
                            Ok(())
                        },
                        Err(msg) => {
                            proof {
                                assert(frame.ecs.players() =~= f0.ecs.players());
                            }
                            Err(GameError::Message(msg))
                        },
                    }
                },
                Inventory::Actual(_) => {
                    proof {
                        assert(false);
                    }
                    Ok(())
                },
            }
        },
        _ => Ok(()),
    }
}

} // verus!
