use time_game_lib::ecs::Ecs;
use time_game_lib::error::GameError;
use time_game_lib::game_frame::{entity_id, GameFrame};
use time_game_lib::game_state::validate_selection;
use time_game_lib::inventory::{ActualInventory, Inventory};
use time_game_lib::item::{Item, Key};
use time_game_lib::portal_graph::{ItemPortalGraphNode, PlayerPortalGraphNode};
use time_game_lib::types::{Entity, Id, ItemDrop, Point, Selection};

fn drop_at(id: u64, x: i32, y: i32) -> ItemDrop {
    ItemDrop { id: Id(id), position: Point::new(x, y), item: Item::Key(Key {}) }
}

#[test]
fn new_entities_are_fresh_and_found_where_they_stand() {
    let mut ecs = Ecs::new();
    let a = ecs.insert_player(Point::new(0, 0), Inventory::Actual(ActualInventory::new()));
    let b = ecs.insert_player(Point::new(0, 0), Inventory::Actual(ActualInventory::new()));
    let c = ecs.insert_player(Point::new(1, 0), Inventory::Actual(ActualInventory::new()));
    assert!(a != b && b != c && a != c);
    let mut here = ecs.entities_at(Point::new(0, 0));
    here.sort_by_key(|e| e.idx);
    assert_eq!(here, vec![a, b]);
    assert_eq!(ecs.entities_at(Point::new(5, 5)), Vec::<Entity>::new());
    assert_eq!(ecs.player_at(Point::new(1, 0)), Some(c));
    assert_eq!(ecs.player_at(Point::new(2, 0)), None);
    let first = ecs.player_at(Point::new(0, 0));
    assert!(first == Some(a) || first == Some(b));
    assert!(ecs.contains_player(&a));
    assert!(!ecs.contains_player(&Entity { idx: 99, version: 0 }));
}

#[test]
fn inserting_a_player_links_beginning_to_end() {
    let mut frame = GameFrame::new();
    let p = frame.insert_player(Point::new(0, 4)).expect("player");
    assert_eq!(
        frame.player_portal_graph.edge_weight(PlayerPortalGraphNode::Beginning, PlayerPortalGraphNode::End),
        Some(entity_id(p))
    );
    assert_eq!(frame.ecs.player_at(Point::new(0, 4)), Some(p));
}

#[test]
fn entity_labels_keep_number_and_version_apart() {
    assert_eq!(entity_id(Entity { idx: 1, version: 2 }), Id(0x1_0000_0002));
    assert_ne!(entity_id(Entity { idx: 2, version: 1 }), entity_id(Entity { idx: 1, version: 2 }));
}

#[test]
fn inserting_a_drop_records_where_its_items_came_from() {
    let mut frame = GameFrame::new();
    assert_eq!(frame.insert_item_drop(drop_at(7, 1, 1), 1), Ok(()));
    let g = frame.item_portal_graph.as_ref().expect("graph");
    assert_eq!(g.edge_weight(ItemPortalGraphNode::Beginning, ItemPortalGraphNode::Dropped(Id(7))), Some(1));
    assert_eq!(frame.items.len(), 1);
    assert_eq!(
        frame.insert_item_drop(drop_at(8, 1, 1), 2),
        Err(GameError::Message("Position occupied"))
    );
    let g = frame.item_portal_graph.as_ref().expect("graph");
    assert_eq!(g.edge_weight(ItemPortalGraphNode::Beginning, ItemPortalGraphNode::Dropped(Id(8))), Some(2));
    assert_eq!(frame.items.len(), 1);
}

#[test]
fn selection_follows_the_frame() {
    let mut frame = GameFrame::new();
    let p = frame.insert_player(Point::new(2, 3)).expect("player");
    let gone = Entity { idx: 50, version: 0 };
    let mut s = Selection::GridCell(Point::new(2, 3));
    validate_selection(&mut s, &frame);
    assert_eq!(s, Selection::Player(p));
    let mut s = Selection::GridCell(Point::new(9, 9));
    validate_selection(&mut s, &frame);
    assert_eq!(s, Selection::GridCell(Point::new(9, 9)));
    let mut s = Selection::Inventory(gone, Some(1));
    validate_selection(&mut s, &frame);
    assert_eq!(s, Selection::Top);
    let mut s = Selection::WishPicker(p, 3);
    validate_selection(&mut s, &frame);
    assert_eq!(s, Selection::WishPicker(p, 3));
    let mut s = Selection::WishPickerInventoryViewer(p, 3, gone);
    validate_selection(&mut s, &frame);
    assert_eq!(s, Selection::WishPicker(p, 3));
    let mut s = Selection::WishPickerInventoryViewer(gone, 3, gone);
    validate_selection(&mut s, &frame);
    assert_eq!(s, Selection::WishPicker(gone, 3));
    let mut s = Selection::WishPickerInventoryViewer(gone, 3, p);
    validate_selection(&mut s, &frame);
    assert_eq!(s, Selection::Top);
}

use time_game_lib::cells::InventoryCell;
use time_game_lib::game_state::{click_slot, click_tile};
use time_game_lib::inventory::HypotheticalInventory;
use time_game_lib::types::FrameWishResult;

fn key() -> Item {
    Item::Key(Key {})
}

/// A frame with one player out of portal 9, who holds a hypothetical inventory, and one
/// key lying at (4, 4).
fn frame_with_wisher() -> (GameFrame, Entity) {
    let mut frame = GameFrame::new();
    let p = frame.ecs.insert_player(Point::new(1, 1), Inventory::Hypothetical(HypotheticalInventory::new()));
    frame.player_portal_graph.add_edge(PlayerPortalGraphNode::Portal(Id(9)), PlayerPortalGraphNode::End, entity_id(p));
    frame.insert_item_drop(drop_at(30, 4, 4), 1).expect("drop");
    (frame, p)
}

#[test]
fn frame_wish_and_unwish() {
    let (mut frame, p) = frame_with_wisher();
    assert_eq!(frame.wish(p, 0, None), FrameWishResult::NoItem);
    assert_eq!(frame.wish(p, 0, Some(key())), FrameWishResult::Success);
    assert_eq!(frame.ecs.inventory_cell(&p, 0), Some(InventoryCell { item: key(), count: 1 }));
    assert_eq!(frame.wish(p, 0, None), FrameWishResult::Success);
    assert_eq!(frame.ecs.inventory_cell(&p, 0), Some(InventoryCell { item: key(), count: 2 }));
    assert_eq!(frame.unwish(p, 0), Ok(FrameWishResult::Success));
    assert_eq!(frame.ecs.inventory_cell(&p, 0), Some(InventoryCell { item: key(), count: 1 }));
    assert_eq!(frame.unwish(p, 1), Ok(FrameWishResult::NoItem));
    assert_eq!(frame.unwish(p, 0), Ok(FrameWishResult::Success));
    assert_eq!(frame.ecs.inventory_cell(&p, 0), None);
}

#[test]
fn unwish_without_a_wish_is_refused() {
    let (mut frame, p) = frame_with_wisher();
    frame.ecs.replace_inventory(p, Inventory::Hypothetical({
        let mut h = HypotheticalInventory::new();
        h.cells[2] = Some(InventoryCell { item: key(), count: 1 });
        h
    }));
    assert_eq!(frame.unwish(p, 2), Err(GameError::Message("Can't un-wish: minimum value 0")));
    assert_eq!(frame.ecs.inventory_cell(&p, 2), Some(InventoryCell { item: key(), count: 1 }));
}

#[test]
fn actual_inventories_do_not_wish() {
    let mut frame = GameFrame::new();
    let p = frame.insert_player(Point::new(0, 0)).expect("player");
    assert_eq!(frame.wish(p, 0, Some(key())), FrameWishResult::Success);
    assert_eq!(frame.ecs.inventory_cell(&p, 0), None);
    assert_eq!(frame.unwish(p, 0), Ok(FrameWishResult::Success));
}

#[test]
fn clicking_tiles() {
    let (mut frame, p) = frame_with_wisher();
    let mut s = Selection::Top;
    click_tile(&mut s, &mut frame, Point::new(1, 1));
    assert_eq!(s, Selection::Player(p));
    click_tile(&mut s, &mut frame, Point::new(7, 7));
    assert_eq!(s, Selection::GridCell(Point::new(7, 7)));
    let mut s = Selection::WishPicker(p, 3);
    click_tile(&mut s, &mut frame, Point::new(7, 7));
    assert_eq!(s, Selection::WishPicker(p, 3));
    click_tile(&mut s, &mut frame, Point::new(1, 1));
    assert_eq!(s, Selection::WishPickerInventoryViewer(p, 3, p));
    let mut s = Selection::WishPicker(p, 3);
    click_tile(&mut s, &mut frame, Point::new(4, 4));
    assert_eq!(s, Selection::Inventory(p, Some(3)));
    assert_eq!(frame.ecs.inventory_cell(&p, 3), Some(InventoryCell { item: key(), count: 1 }));
}

#[test]
fn clicking_slots() {
    let (mut frame, p) = frame_with_wisher();
    let other = frame.ecs.insert_player(Point::new(2, 2), Inventory::Actual({
        let mut a = ActualInventory::new();
        a.cells[5] = Some(InventoryCell { item: key(), count: 3 });
        a
    }));
    let mut s = Selection::Inventory(p, None);
    assert_eq!(click_slot(&mut s, &mut frame, Some(4)), Ok(()));
    assert_eq!(s, Selection::Inventory(p, Some(4)));
    let mut s = Selection::WishPickerInventoryViewer(p, 0, other);
    assert_eq!(click_slot(&mut s, &mut frame, None), Ok(()));
    assert_eq!(click_slot(&mut s, &mut frame, Some(1)), Ok(()));
    assert_eq!(s, Selection::WishPickerInventoryViewer(p, 0, other));
    assert_eq!(click_slot(&mut s, &mut frame, Some(5)), Ok(()));
    assert_eq!(s, Selection::Inventory(p, Some(5)));
    assert_eq!(frame.ecs.inventory_cell(&p, 5), Some(InventoryCell { item: key(), count: 1 }));
}
