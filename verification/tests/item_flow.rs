use time_game_lib::error::GameError;
use time_game_lib::item::Item;
use time_game_lib::item_flow::{check_item_flow, link_holdings, record_drop, record_pick_up};
use time_game_lib::portal_graph::{ItemPortalGraph, ItemPortalGraphNode};
use time_game_lib::types::{Direction, Id, Point};

use ItemPortalGraphNode::{Beginning, Dropped, Held};

fn key() -> Item {
    Item::Key(time_game_lib::item::Key {})
}

#[test]
fn pick_up_without_earlier_holding_starts_at_one() {
    let mut g = ItemPortalGraph::new();
    g.add_edge(Beginning, Dropped(Id(50)), 1);
    record_pick_up(&mut g, Id(1), Id(50), 0);
    assert_eq!(g.edge_weight(Dropped(Id(50)), Held(Id(1), 1)), Some(1));
    assert_eq!(g.edge_weight(Held(Id(1), 0), Held(Id(1), 1)), Some(0));
    assert!(g.contains_node(Held(Id(1), 0)));
}

#[test]
fn pick_up_follows_the_latest_holding() {
    let mut g = ItemPortalGraph::new();
    g.add_edge(Held(Id(1), 0), Held(Id(1), 1), 2);
    g.add_edge(Held(Id(1), 1), Held(Id(1), 2), 2);
    record_pick_up(&mut g, Id(1), Id(60), 2);
    assert_eq!(g.edge_weight(Dropped(Id(60)), Held(Id(1), 3)), Some(1));
    assert_eq!(g.edge_weight(Held(Id(1), 2), Held(Id(1), 3)), Some(2));
    assert_eq!(g.edge_weight(Held(Id(1), 0), Held(Id(1), 1)), Some(2));
}

#[test]
fn drop_feeds_the_drop_and_a_new_holding() {
    let mut g = ItemPortalGraph::new();
    g.add_edge(Held(Id(1), 0), Held(Id(1), 1), 3);
    record_drop(&mut g, Id(1), Id(70), 2);
    assert_eq!(g.edge_weight(Held(Id(1), 1), Dropped(Id(70))), Some(1));
    assert_eq!(g.edge_weight(Held(Id(1), 1), Held(Id(1), 2)), Some(2));
    let mut fresh = ItemPortalGraph::new();
    record_drop(&mut fresh, Id(2), Id(71), 0);
    assert_eq!(fresh.edge_weight(Held(Id(2), 0), Dropped(Id(71))), Some(1));
    assert_eq!(fresh.edge_weight(Held(Id(2), 0), Held(Id(2), 1)), Some(0));
}

#[test]
fn jump_links_the_latest_holding_to_the_first_of_the_other_player() {
    let mut g = ItemPortalGraph::new();
    g.add_edge(Held(Id(1), 0), Held(Id(1), 1), 3);
    link_holdings(&mut g, Id(1), Id(2), 3);
    assert_eq!(g.edge_weight(Held(Id(1), 1), Held(Id(2), 0)), Some(3));
    let before = g.edge_weight(Held(Id(9), 0), Held(Id(2), 0));
    link_holdings(&mut g, Id(9), Id(2), 4);
    assert_eq!(before, None);
    assert_eq!(g.edge_weight(Held(Id(9), 0), Held(Id(2), 0)), None);
    assert!(!g.contains_node(Held(Id(9), 0)));
}

#[test]
fn items_that_end_up_somewhere_pass_the_check() {
    let mut g = ItemPortalGraph::new();
    g.add_edge(Held(Id(1), 0), Held(Id(1), 1), 3);
    g.add_edge(Held(Id(1), 1), Held(Id(2), 0), 3);
    g.add_edge(Held(Id(2), 0), Dropped(Id(5)), 1);
    assert_eq!(check_item_flow(&g, key(), Id(1)), Ok(()));
    assert!(g.reaches_sink(Held(Id(1), 1)));
    assert_eq!(check_item_flow(&g, key(), Id(7)), Ok(()));
}

#[test]
fn items_going_round_a_loop_are_refused() {
    let mut g = ItemPortalGraph::new();
    g.add_edge(Held(Id(1), 0), Held(Id(1), 1), 3);
    g.add_edge(Held(Id(1), 1), Held(Id(1), 0), 3);
    assert_eq!(check_item_flow(&g, key(), Id(1)), Err(GameError::LoopFor(key())));
    assert!(!g.reaches_sink(Held(Id(1), 0)));
}

#[test]
fn edges_carrying_nothing_do_not_count_as_a_way_out() {
    let mut g = ItemPortalGraph::new();
    g.add_edge(Held(Id(1), 0), Held(Id(1), 1), 3);
    g.add_edge(Held(Id(1), 1), Held(Id(1), 0), 3);
    g.add_edge(Held(Id(1), 1), Dropped(Id(5)), 0);
    assert!(!g.reaches_sink(Held(Id(1), 1)));
    g.add_edge(Held(Id(1), 1), Dropped(Id(5)), 1);
    assert!(g.reaches_sink(Held(Id(1), 1)));
}

#[test]
fn a_step_moves_one_tile() {
    let p = Point::new(3, 4);
    assert_eq!(p.step(Direction::Up), Point::new(3, 3));
    assert_eq!(p.step(Direction::Down), Point::new(3, 5));
    assert_eq!(p.step(Direction::Left), Point::new(2, 4));
    assert_eq!(p.step(Direction::Right), Point::new(4, 4));
}
