use time_game_lib::cells::{
    add_to_cells, count_cells_items, drop_from_cells, insert_into_cells, remove_from_cells,
    InventoryCell,
};
use time_game_lib::error::GameError;
use time_game_lib::item::{Item, Key};

fn key() -> Item {
    Item::Key(Key {})
}

fn stack(count: u8) -> Option<InventoryCell> {
    Some(InventoryCell { item: key(), count })
}

fn empty_cells() -> [Option<InventoryCell>; 32] {
    [None; 32]
}

#[test]
fn add_fills_existing_stack_before_empty_slots() {
    let mut cells = empty_cells();
    cells[3] = stack(250);
    assert_eq!(add_to_cells(&mut cells, &key(), 10), Ok(()));
    assert_eq!(cells[3], stack(255));
    assert_eq!(cells[0], stack(5));
    for i in 4..32 {
        assert_eq!(cells[i], None);
    }
}

#[test]
fn add_splits_large_counts_into_full_stacks() {
    let mut cells = empty_cells();
    assert_eq!(add_to_cells(&mut cells, &key(), 300), Ok(()));
    assert_eq!(cells[0], stack(255));
    assert_eq!(cells[1], stack(45));
    assert_eq!(cells[2], None);
}

#[test]
fn add_exactly_one_full_stack() {
    let mut cells = empty_cells();
    assert_eq!(add_to_cells(&mut cells, &key(), 255), Ok(()));
    assert_eq!(cells[0], stack(255));
    assert_eq!(cells[1], None);
}

#[test]
fn add_zero_changes_nothing() {
    let mut cells = empty_cells();
    cells[5] = stack(7);
    assert_eq!(add_to_cells(&mut cells, &key(), 0), Ok(()));
    let mut expected = empty_cells();
    expected[5] = stack(7);
    assert_eq!(cells, expected);
}

#[test]
fn add_beyond_capacity_reports_left_over() {
    let mut cells = empty_cells();
    assert_eq!(add_to_cells(&mut cells, &key(), 255 * 32 + 17), Err(17));
    for i in 0..32 {
        assert_eq!(cells[i], stack(255));
    }
}

#[test]
fn remove_takes_from_the_last_stack_first() {
    let mut cells = empty_cells();
    cells[0] = stack(10);
    cells[4] = stack(3);
    assert_eq!(remove_from_cells(&mut cells, &key(), 5), Ok(()));
    assert_eq!(cells[4], None);
    assert_eq!(cells[0], stack(8));
}

#[test]
fn remove_exact_stack_empties_slot() {
    let mut cells = empty_cells();
    cells[2] = stack(6);
    assert_eq!(remove_from_cells(&mut cells, &key(), 6), Ok(()));
    assert_eq!(cells, empty_cells());
}

#[test]
fn remove_too_many_reports_missing() {
    let mut cells = empty_cells();
    cells[1] = stack(4);
    cells[9] = stack(2);
    assert_eq!(remove_from_cells(&mut cells, &key(), 10), Err(4));
    assert_eq!(cells, empty_cells());
}

#[test]
fn drop_from_cells_takes_one() {
    let mut cells = empty_cells();
    cells[0] = stack(2);
    assert_eq!(drop_from_cells(&mut cells, 0), Ok(key()));
    assert_eq!(cells[0], stack(1));
    assert_eq!(drop_from_cells(&mut cells, 0), Ok(key()));
    assert_eq!(cells[0], None);
}

#[test]
fn drop_from_empty_slot_is_refused() {
    let mut cells = empty_cells();
    assert_eq!(
        drop_from_cells(&mut cells, 7),
        Err("Tried to drop from empty inventory slot")
    );
    assert_eq!(cells, empty_cells());
}

#[test]
fn insert_into_full_cells_is_refused() {
    let mut cells = [stack(255); 32];
    assert_eq!(
        insert_into_cells(&mut cells, &key()),
        Err(GameError::NoSpaceFor(key()))
    );
    assert_eq!(cells, [stack(255); 32]);
}

#[test]
fn insert_into_cells_adds_one() {
    let mut cells = empty_cells();
    assert_eq!(insert_into_cells(&mut cells, &key()), Ok(()));
    assert_eq!(insert_into_cells(&mut cells, &key()), Ok(()));
    assert_eq!(cells[0], stack(2));
}

#[test]
fn count_cells_items_sums_stacks() {
    let mut cells = empty_cells();
    cells[0] = stack(255);
    cells[10] = stack(45);
    cells[31] = stack(1);
    let counts = count_cells_items(&cells);
    assert_eq!(counts.get(&key()), Some(301));
    assert_eq!(counts.len(), 1);
}

#[test]
fn count_cells_items_of_empty_cells_is_empty() {
    let counts = count_cells_items(&empty_cells());
    assert_eq!(counts.get(&key()), None);
    assert_eq!(counts.len(), 0);
}

#[test]
fn add_zero_without_a_stack_leaves_an_empty_stack() {
    let mut cells = empty_cells();
    assert_eq!(add_to_cells(&mut cells, &key(), 0), Ok(()));
    assert_eq!(cells[0], stack(0));
    assert_eq!(count_cells_items(&cells).get(&key()), Some(0));
}
