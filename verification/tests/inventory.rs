use time_game_lib::cells::InventoryCell;
use time_game_lib::counts::ItemCounts;
use time_game_lib::error::GameError;
use time_game_lib::inventory::{ActualInventory, HypotheticalInventory, Inventory};
use time_game_lib::item::{Item, Key};

fn key() -> Item {
    Item::Key(Key {})
}

fn stack(count: u8) -> Option<InventoryCell> {
    Some(InventoryCell { item: key(), count })
}

#[test]
fn new_inventories_are_empty() {
    let h = HypotheticalInventory::new();
    assert_eq!(h.cells, [None; 32]);
    assert_eq!(h.constraints.len(), 0);
    assert_eq!(h.minima.len(), 0);
    let a = ActualInventory::new();
    assert_eq!(a.cells, [None; 32]);
    let d: ActualInventory = Default::default();
    assert_eq!(d.cells, [None; 32]);
    let dh: HypotheticalInventory = Default::default();
    assert_eq!(dh.cells, [None; 32]);
}

#[test]
fn wish_adds_item_and_records_it() {
    let mut h = HypotheticalInventory::new();
    assert_eq!(h.wish(key(), 4), Ok(()));
    assert_eq!(h.wish(key(), 4), Ok(()));
    assert_eq!(h.cells[4], stack(2));
    assert_eq!(h.constraints.get(&key()), Some(2));
    assert_eq!(h.minima.get(&key()), Some(2));
    assert_eq!(h.count_items().get(&key()), Some(2));
}

#[test]
fn unwish_undoes_wish() {
    let mut h = HypotheticalInventory::new();
    h.wish(key(), 0).expect("wish");
    h.wish(key(), 0).expect("wish");
    assert_eq!(h.unwish(0), Ok(()));
    assert_eq!(h.cells[0], stack(1));
    assert_eq!(h.constraints.get(&key()), Some(1));
    assert_eq!(h.minima.get(&key()), Some(1));
    assert_eq!(h.unwish(0), Ok(()));
    assert_eq!(h.cells[0], None);
    assert_eq!(h.constraints.get(&key()), Some(0));
    assert_eq!(h.minima.get(&key()), Some(0));
}

#[test]
fn unwish_empty_slot_is_refused() {
    let mut h = HypotheticalInventory::new();
    assert_eq!(h.unwish(3), Err("Can't un-wish: empty inventory cell"));
    assert_eq!(h.constraints.len(), 0);
    assert_eq!(h.minima.len(), 0);
}

#[test]
fn unwish_picked_up_item_is_refused() {
    let mut inv = Inventory::Hypothetical(HypotheticalInventory::new());
    inv.insert(&key()).expect("insert");
    match inv {
        Inventory::Hypothetical(mut h) => {
            assert_eq!(h.unwish(0), Err("Can't un-wish: minimum value 0"));
            assert_eq!(h.cells[0], stack(1));
            assert_eq!(h.minima.get(&key()), Some(0));
            assert_eq!(h.constraints.get(&key()), None);
        }
        Inventory::Actual(_) => panic!("inventory changed kind"),
    }
}

#[test]
fn unwish_never_wished_is_refused() {
    let mut minima = ItemCounts::new();
    minima.insert(key(), 1);
    let mut cells = [None; 32];
    cells[0] = stack(1);
    let mut h = HypotheticalInventory { cells, constraints: ItemCounts::new(), minima };
    assert_eq!(h.unwish(0), Err("Can't un-wish: never wished in the first place"));
    assert_eq!(h.cells[0], stack(1));
    assert_eq!(h.constraints.get(&key()), Some(0));
    assert_eq!(h.minima.get(&key()), Some(1));
}

#[test]
fn hypothetical_drop_lowers_minimum() {
    let mut h = HypotheticalInventory::new();
    for _ in 0..3 {
        h.wish(key(), 0).expect("wish");
    }
    assert_eq!(h.drop(0), Ok(key()));
    assert_eq!(h.drop(0), Ok(key()));
    assert_eq!(h.cells[0], stack(1));
    assert_eq!(h.minima.get(&key()), Some(1));
    assert_eq!(h.constraints.get(&key()), Some(3));
}

#[test]
fn hypothetical_drop_from_empty_slot_is_refused() {
    let mut h = HypotheticalInventory::new();
    assert_eq!(h.drop(9), Err("Tried to drop from empty inventory slot"));
    assert_eq!(h.minima.len(), 0);
}

#[test]
fn actual_drop_and_count() {
    let mut a = ActualInventory::new();
    a.cells[2] = stack(3);
    a.cells[5] = stack(1);
    assert_eq!(a.count_items().get(&key()), Some(4));
    assert_eq!(a.drop(5), Ok(key()));
    assert_eq!(a.cells[5], None);
    assert_eq!(a.count_items().get(&key()), Some(3));
    assert_eq!(a.drop(5), Err("Tried to drop from empty inventory slot"));
}

#[test]
fn inventory_insert_drop_and_cells() {
    let mut inv = Inventory::Actual(ActualInventory::new());
    assert_eq!(inv.insert(&key()), Ok(()));
    assert_eq!(inv.insert(&key()), Ok(()));
    assert_eq!(inv.cells()[0], stack(2));
    assert_eq!(inv.count_items().get(&key()), Some(2));
    assert_eq!(inv.drop(0), Ok(key()));
    assert_eq!(inv.cells()[0], stack(1));
    assert_eq!(inv.drop(1), Err("Tried to drop from empty inventory slot"));
}

#[test]
fn inventory_insert_into_full_inventory_is_refused() {
    let mut a = ActualInventory::new();
    a.cells = [stack(255); 32];
    let mut inv = Inventory::Actual(a);
    assert_eq!(inv.insert(&key()), Err(GameError::NoSpaceFor(key())));
    assert_eq!(inv.count_items().get(&key()), Some(255 * 32));
}

#[test]
fn inventory_cells_mut_changes_slots_only() {
    let mut h = HypotheticalInventory::new();
    h.wish(key(), 0).expect("wish");
    let mut inv = Inventory::Hypothetical(h);
    inv.cells_mut()[7] = stack(9);
    assert_eq!(inv.cells()[7], stack(9));
    assert_eq!(inv.count_items().get(&key()), Some(10));
    match inv {
        Inventory::Hypothetical(h) => {
            assert_eq!(h.constraints.get(&key()), Some(1));
            assert_eq!(h.minima.get(&key()), Some(1));
        }
        Inventory::Actual(_) => panic!("inventory changed kind"),
    }
}
