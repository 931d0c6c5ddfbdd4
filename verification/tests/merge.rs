use time_game_lib::cells::{add_to_cells, InventoryCell};
use time_game_lib::counts::ItemCounts;
use time_game_lib::error::GameError;
use time_game_lib::inventory::{ActualInventory, HypotheticalInventory, Inventory};
use time_game_lib::item::{Item, Key};

fn key() -> Item {
    Item::Key(Key {})
}

fn stack(count: u8) -> Option<InventoryCell> {
    Some(InventoryCell { item: key(), count })
}

fn actual_with(count: usize) -> ActualInventory {
    let mut actual = ActualInventory::new();
    add_to_cells(&mut actual.cells, &key(), count).expect("Adding items to actual failed");
    actual
}

fn wished(wish_count: u8, drop_count: u8) -> HypotheticalInventory {
    let mut hypothetical = HypotheticalInventory::new();
    for _ in 0..wish_count {
        hypothetical.wish(key(), 0).expect("Wishing failed");
    }
    for _ in 0..drop_count {
        hypothetical.drop(0).expect("Dropping failed");
    }
    hypothetical
}

fn merged_actual(post: &HypotheticalInventory, actual: ActualInventory) -> Inventory {
    let (merged, _) = post.merge_in(Inventory::Actual(actual)).expect("Merge failed");
    merged
}

#[test]
fn merge_in_empty_hypothetical_keeps_counts() {
    for available in [1usize, 7, 255, 256, 1000] {
        let actual = actual_with(available);
        let initial = actual.count_items();
        let merged = merged_actual(&HypotheticalInventory::new(), actual);
        assert!(merged.count_items().same_counts(&initial));
        assert!(matches!(merged, Inventory::Actual(_)));
    }
}

#[test]
fn merge_in_drops_empty_stacks_from_the_counts() {
    // Adding nothing to empty slots leaves an empty stack behind, which counts as 0 held.
    let actual = actual_with(0);
    assert_eq!(actual.cells[0], stack(0));
    assert_eq!(actual.count_items().get(&key()), Some(0));
    let merged = merged_actual(&HypotheticalInventory::new(), actual);
    assert_eq!(merged.cells(), &[None; 32]);
    assert_eq!(merged.count_items().get(&key()), None);
    let merged = merged_actual(&HypotheticalInventory::new(), ActualInventory::new());
    assert_eq!(merged.count_items().len(), 0);
}

#[test]
fn merge_in_empty_hypothetical_keeps_scattered_slots() {
    let mut actual = ActualInventory::new();
    actual.cells[3] = stack(200);
    actual.cells[17] = stack(99);
    let merged = merged_actual(&HypotheticalInventory::new(), actual);
    assert_eq!(merged.count_items().get(&key()), Some(299));
}

#[test]
fn merge_in_wished_hypothetical_keeps_counts() {
    for (available, wish_count) in [(1usize, 0u8), (3, 3), (10, 4), (2, 200), (600, 255)] {
        let actual = actual_with(available);
        let initial = actual.count_items();
        let merged = merged_actual(&wished(wish_count, 0), actual);
        assert!(merged.count_items().same_counts(&initial));
    }
}

#[test]
fn merge_in_too_many_drops_is_refused() {
    // available < drop_count <= wish_count
    let post = wished(5, 4);
    let err = post
        .merge_in(Inventory::Actual(actual_with(2)))
        .expect_err("Merge succeeded");
    assert_eq!(err, GameError::NotEnough { item: key(), short: 2 });
    let post = wished(9, 9);
    let err = post
        .merge_in(Inventory::Actual(actual_with(0)))
        .expect_err("Merge succeeded");
    assert_eq!(err, GameError::NotEnough { item: key(), short: 9 });
}

#[test]
fn merge_in_enough_drops_counts_the_remainder() {
    // drop_count <= available <= wish_count
    for (drop_count, available, wish_count) in [(0u8, 0usize, 0u8), (2, 5, 9), (4, 4, 4), (1, 255, 255)] {
        let post = wished(wish_count, drop_count);
        let merged = merged_actual(&post, actual_with(available));
        let counts = merged.count_items();
        if available > drop_count as usize {
            assert_eq!(counts.get(&key()), Some(available - drop_count as usize));
            assert_eq!(counts.len(), 1);
        } else {
            assert_eq!(counts.len(), 0);
        }
    }
}

#[test]
fn merge_in_actual_reports_changes() {
    let post = wished(5, 0);
    let (merged, changes) = post.merge_in(Inventory::Actual(actual_with(2))).expect("Merge failed");
    assert_eq!(merged.cells()[0], stack(2));
    assert_eq!(changes.len(), 1);
    assert_eq!(changes[0].item, key());
    assert_eq!(changes[0].post_count, 3);
    assert_eq!(changes[0].prior_count, 0);
    let post = wished(1, 0);
    let (merged, changes) = post.merge_in(Inventory::Actual(actual_with(4))).expect("Merge failed");
    assert_eq!(merged.cells()[0], stack(4));
    assert_eq!(changes.len(), 1);
    assert_eq!(changes[0].post_count, 3);
    assert_eq!(changes[0].prior_count, 0);
}

#[test]
fn merge_in_hypothetical_with_surplus() {
    let post = wished(3, 0);
    let prior = wished(5, 0);
    let (merged, changes) = post.merge_in(Inventory::Hypothetical(prior)).expect("Merge failed");
    match merged {
        Inventory::Hypothetical(h) => {
            assert_eq!(h.cells[0], stack(5));
            assert_eq!(h.minima.get(&key()), Some(5));
            assert_eq!(h.constraints.get(&key()), Some(5));
        }
        Inventory::Actual(_) => panic!("expected a hypothetical inventory"),
    }
    assert_eq!(changes.len(), 1);
    assert_eq!(changes[0].post_count, 2);
    assert_eq!(changes[0].prior_count, 0);
}

#[test]
fn merge_in_hypothetical_with_shortfall() {
    let post = wished(5, 0);
    let prior = wished(3, 0);
    let (merged, changes) = post.merge_in(Inventory::Hypothetical(prior)).expect("Merge failed");
    match merged {
        Inventory::Hypothetical(h) => {
            assert_eq!(h.cells[0], stack(5));
            assert_eq!(h.minima.get(&key()), Some(5));
            assert_eq!(h.constraints.get(&key()), Some(5));
        }
        Inventory::Actual(_) => panic!("expected a hypothetical inventory"),
    }
    assert_eq!(changes.len(), 1);
    assert_eq!(changes[0].post_count, 0);
    assert_eq!(changes[0].prior_count, 2);
}

#[test]
fn merge_in_hypothetical_without_room_is_refused() {
    let post = HypotheticalInventory {
        cells: [stack(255); 32],
        constraints: ItemCounts::new(),
        minima: ItemCounts::new(),
    };
    let prior = wished(1, 0);
    let err = post
        .merge_in(Inventory::Hypothetical(prior))
        .expect_err("Merge succeeded");
    assert_eq!(err, GameError::TooMany { item: key(), overflow: 1 });
}
