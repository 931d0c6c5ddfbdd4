use time_game_lib::error::GameError;
use time_game_lib::item::{Item, Key};
use time_game_lib::double_map::{DoubleMap, DoubleMappable};
use time_game_lib::inventory::Inventory;
use time_game_lib::types::{
    Entity, EventTriggerModifier, GameCell, Id, ItemDrop, Player, Point, Portal, Selection,
};

fn entity(idx: u32) -> Entity {
    Entity { idx, version: 1 }
}

fn key() -> Item {
    Item::Key(Key {})
}

fn portal(id: u64, x: i32, y: i32) -> Portal {
    Portal { timestamp: 0, id: Id(id), player_position: Point::new(x, y) }
}

#[test]
fn selection_pop_walks_back_to_top() {
    let e = entity(1);
    let f = entity(2);
    let mut s = Selection::WishPickerInventoryViewer(e, 3, f);
    s.pop();
    assert_eq!(s, Selection::WishPicker(e, 3));
    s.pop();
    assert_eq!(s, Selection::Inventory(e, Some(3)));
    s.pop();
    assert_eq!(s, Selection::Inventory(e, None));
    s.pop();
    assert_eq!(s, Selection::Player(e));
    s.pop();
    assert_eq!(s, Selection::Top);
    s.pop();
    assert_eq!(s, Selection::Top);
    let mut g = Selection::GridCell(Point::new(4, -2));
    g.pop();
    assert_eq!(g, Selection::Top);
}

#[test]
fn trigger_modifiers() {
    let mut m = EventTriggerModifier::Unmodified;
    assert!(m.triggered(true));
    assert!(!m.triggered(false));
    let mut n = EventTriggerModifier::Negated;
    assert!(!n.triggered(true));
    assert!(n.triggered(false));
    let mut r = EventTriggerModifier::Rising(false);
    assert!(r.triggered(true));
    assert_eq!(r, EventTriggerModifier::Rising(true));
    assert!(!r.triggered(true));
    assert!(!r.triggered(false));
    assert_eq!(r, EventTriggerModifier::Rising(false));
    let mut f = EventTriggerModifier::Falling(false);
    assert!(!f.triggered(true));
    assert!(f.triggered(false));
    assert_eq!(f, EventTriggerModifier::Falling(false));
    assert!(!f.triggered(false));
}

#[test]
fn new_portals_and_drops_keep_their_fields() {
    let p = Portal::new(7, Point::new(1, 2));
    assert_eq!(p.timestamp, 7);
    assert_eq!(p.player_position, Point::new(1, 2));
    assert_eq!(p.position(), Point::new(1, 2));
    assert_eq!(p.id(), p.id);
    let d = ItemDrop::new(key(), Point::new(-3, 5));
    assert_eq!(d.item, key());
    assert_eq!(d.position(), Point::new(-3, 5));
    let copy = d.clone();
    assert_eq!(copy.id, d.id);
}

#[test]
fn new_portals_get_fresh_ids() {
    let ids: Vec<Id> = (0..8).map(|_| Portal::new(0, Point::new(0, 0)).id).collect();
    let distinct = ids.iter().enumerate().all(|(i, a)| ids[i + 1..].iter().all(|b| a != b));
    assert!(distinct);
}

#[test]
fn double_map_insert_and_lookups() {
    let mut m: DoubleMap<Portal> = DoubleMap::new();
    assert!(m.is_empty());
    assert_eq!(m.insert(portal(1, 0, 0)), Ok(()));
    assert_eq!(m.insert(portal(2, 1, 0)), Ok(()));
    assert_eq!(m.len(), 2);
    assert!(m.contains_id(&Id(1)));
    assert!(!m.contains_id(&Id(3)));
    assert_eq!(m.get_by_id(&Id(2)).map(|p| p.player_position), Some(Point::new(1, 0)));
    assert_eq!(m.get_by_position(&Point::new(0, 0)).map(|p| p.id), Some(Id(1)));
    assert_eq!(m.id_by_position(&Point::new(1, 0)), Some(Id(2)));
    assert_eq!(m.id_by_position(&Point::new(5, 5)), None);
    assert!(m.get_by_position(&Point::new(5, 5)).is_none());
    assert_eq!(m.iter().len(), 2);
}

#[test]
fn double_map_refuses_taken_position_then_taken_id() {
    let mut m: DoubleMap<Portal> = DoubleMap::new();
    m.insert(portal(1, 0, 0)).expect("insert");
    assert_eq!(m.insert(portal(1, 0, 0)), Err(GameError::Message("Position occupied")));
    assert_eq!(m.insert(portal(9, 0, 0)), Err(GameError::Message("Position occupied")));
    assert_eq!(m.insert(portal(1, 4, 4)), Err(GameError::Message("Id already exists")));
    assert_eq!(m.len(), 1);
}

#[test]
fn double_map_removals() {
    let mut m: DoubleMap<ItemDrop> = DoubleMap::new();
    m.insert(ItemDrop { id: Id(10), position: Point::new(2, 2), item: key() }).expect("insert");
    m.insert(ItemDrop { id: Id(11), position: Point::new(3, 2), item: key() }).expect("insert");
    let d = m.remove_by_position(&Point::new(2, 2)).expect("drop at (2,2)");
    assert_eq!(d.id, Id(10));
    assert!(m.remove_by_position(&Point::new(2, 2)).is_none());
    assert!(!m.contains_id(&Id(10)));
    let e = m.remove_by_id(&Id(11)).expect("drop 11");
    assert_eq!(e.position, Point::new(3, 2));
    assert!(m.remove_by_id(&Id(11)).is_none());
    assert!(m.is_empty());
    assert_eq!(m.id_by_position(&Point::new(3, 2)), None);
}

#[test]
fn double_map_put_back_restores() {
    let mut m: DoubleMap<Portal> = DoubleMap::new();
    m.insert(portal(1, 0, 0)).expect("insert");
    m.insert(portal(2, 0, 1)).expect("insert");
    let mut p = m.remove_by_id(&Id(2)).expect("portal 2");
    p.timestamp = 5;
    assert_eq!(m.insert(p), Ok(()));
    assert_eq!(m.len(), 2);
    assert_eq!(m.get_by_id(&Id(2)).map(|p| p.timestamp), Some(5));
    assert_eq!(m.id_by_position(&Point::new(0, 1)), Some(Id(2)));
}

#[test]
fn game_cells_start_empty() {
    let mut c = GameCell::new();
    assert!(c.is_empty());
    c.item = Some(key());
    assert!(!c.is_empty());
    let d = GameCell { player: Some(Id(3)), portal: None, item: None };
    assert!(!d.is_empty());
}

#[test]
fn new_players_start_with_nothing() {
    let p = Player::new(Point::new(6, 7));
    assert_eq!(p.position(), Point::new(6, 7));
    match &p.inventory {
        Inventory::Actual(a) => assert_eq!(a.cells, [None; 32]),
        Inventory::Hypothetical(_) => panic!("new players hold actual items"),
    }
    let mut m: DoubleMap<Player> = DoubleMap::new();
    let id = p.id;
    assert_eq!(m.insert(p), Ok(()));
    assert_eq!(m.id_by_position(&Point::new(6, 7)), Some(id));
}

#[test]
fn double_map_grows_by_one_per_insert() {
    let mut m: DoubleMap<Portal> = DoubleMap::new();
    assert_eq!(m.len(), 0);
    assert_eq!(m.insert(portal(1, 0, 0)), Ok(()));
    assert_eq!(m.len(), 1);
    assert_eq!(m.insert(portal(2, 1, 0)), Ok(()));
    assert_eq!(m.len(), 2);
    assert!(m.insert(portal(2, 5, 5)).is_err());
    assert_eq!(m.len(), 2);
}
