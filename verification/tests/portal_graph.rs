use time_game_lib::error::GameError;
use time_game_lib::portal_graph::{
    close_portal, find_latest_held, find_latest_held_index, find_trail_from_origin, player_held_nodes,
    signed_wish, unwish, wish, ItemPortalGraph, ItemPortalGraphNode, PlayerPortalGraph,
    PlayerPortalGraphNode,
};
use time_game_lib::types::Id;

use ItemPortalGraphNode::Held;
use PlayerPortalGraphNode::{Beginning, End, Portal};

/// Player 1 came from the beginning and jumped into portal 100, out of which player 2 came;
/// player 2 jumped into portal 200, out of which player 3 came, who is still around.
/// Player 4 came from the beginning and is still around.
fn players() -> PlayerPortalGraph {
    let mut g = PlayerPortalGraph::new();
    g.add_edge(Beginning, Portal(Id(100)), Id(1));
    g.add_edge(Portal(Id(100)), Portal(Id(200)), Id(2));
    g.add_edge(Portal(Id(200)), End, Id(3));
    g.add_edge(Beginning, End, Id(4));
    g
}

#[test]
fn trail_walks_back_through_portals() {
    let g = players();
    assert_eq!(find_trail_from_origin(&g, Id(3)), Some(vec![Id(3), Id(2), Id(1)]));
    assert_eq!(find_trail_from_origin(&g, Id(4)), Some(vec![Id(4)]));
    assert_eq!(find_trail_from_origin(&g, Id(2)), None);
    assert_eq!(find_trail_from_origin(&PlayerPortalGraph::new(), Id(1)), None);
}

#[test]
fn trail_stops_at_a_portal_nobody_entered() {
    let mut g = PlayerPortalGraph::new();
    g.add_edge(Portal(Id(7)), End, Id(9));
    assert_eq!(find_trail_from_origin(&g, Id(9)), Some(vec![Id(9)]));
}

#[test]
fn player_graph_edges() {
    let mut g = players();
    assert_eq!(g.edge_weight(Beginning, End), Some(Id(4)));
    assert_eq!(g.add_edge(Beginning, End, Id(5)), Some(Id(4)));
    assert_eq!(g.remove_edge(Beginning, End), Some(Id(5)));
    assert_eq!(g.remove_edge(Beginning, End), None);
    assert_eq!(g.edge_weight(Beginning, End), None);
}

#[test]
fn latest_held_index_follows_the_unbroken_run() {
    let mut items = ItemPortalGraph::new();
    assert_eq!(find_latest_held_index(&items, Id(1)), None);
    items.add_edge(Held(Id(1), 0), Held(Id(1), 1), 2);
    items.add_edge(Held(Id(1), 1), Held(Id(1), 2), 2);
    items.add_edge(Held(Id(1), 4), Held(Id(1), 5), 2);
    assert_eq!(find_latest_held_index(&items, Id(1)), Some(2));
    assert_eq!(find_latest_held(&items, Id(1)), Some(Held(Id(1), 2)));
    assert_eq!(find_latest_held(&items, Id(2)), None);
    items.add_edge(Held(Id(2), 0), ItemPortalGraphNode::Dropped(Id(50)), 1);
    assert_eq!(find_latest_held_index(&items, Id(2)), Some(0));
}

#[test]
fn held_nodes_run_along_the_trail() {
    let players = players();
    let mut items = ItemPortalGraph::new();
    items.add_edge(Held(Id(3), 0), Held(Id(3), 1), 1);
    items.add_edge(Held(Id(1), 1), Held(Id(1), 2), 1);
    let held = player_held_nodes(&items, &players, Id(3)).expect("trail");
    assert_eq!(
        held,
        vec![
            Held(Id(3), 0),
            Held(Id(3), 1),
            Held(Id(2), 0),
            Held(Id(1), 0),
            Held(Id(1), 1),
            Held(Id(1), 2),
        ]
    );
    assert_eq!(player_held_nodes(&items, &players, Id(8)), None);
}

#[test]
fn wish_adds_along_the_trail_and_unwish_takes_back() {
    let players = players();
    let mut items = ItemPortalGraph::new();
    items.add_edge(Held(Id(3), 0), Held(Id(2), 0), 4);
    wish(&mut items, &players, Id(3), 2);
    assert_eq!(items.edge_weight(Held(Id(3), 0), Held(Id(2), 0)), Some(6));
    assert_eq!(items.edge_weight(Held(Id(2), 0), Held(Id(1), 0)), Some(2));
    assert!(items.contains_node(Held(Id(1), 0)));
    unwish(&mut items, &players, Id(3), 2);
    assert_eq!(items.edge_weight(Held(Id(3), 0), Held(Id(2), 0)), Some(4));
    assert_eq!(items.edge_weight(Held(Id(2), 0), Held(Id(1), 0)), None);
    assert!(items.contains_node(Held(Id(1), 0)));
}

#[test]
fn signed_wish_picks_the_direction() {
    let players = players();
    let mut items = ItemPortalGraph::new();
    signed_wish(&mut items, &players, Id(3), 3);
    assert_eq!(items.edge_weight(Held(Id(3), 0), Held(Id(2), 0)), Some(3));
    signed_wish(&mut items, &players, Id(3), 0);
    assert_eq!(items.edge_weight(Held(Id(3), 0), Held(Id(2), 0)), Some(3));
    signed_wish(&mut items, &players, Id(3), -1);
    assert_eq!(items.edge_weight(Held(Id(3), 0), Held(Id(2), 0)), Some(2));
    assert_eq!(items.edge_weight(Held(Id(2), 0), Held(Id(1), 0)), Some(2));
}

#[test]
fn item_graph_edges() {
    let mut items = ItemPortalGraph::new();
    assert!(!items.contains_node(ItemPortalGraphNode::Beginning));
    assert_eq!(items.add_edge(ItemPortalGraphNode::Beginning, ItemPortalGraphNode::Dropped(Id(3)), 5), None);
    assert!(items.contains_node(ItemPortalGraphNode::Beginning));
    assert_eq!(items.add_edge(ItemPortalGraphNode::Beginning, ItemPortalGraphNode::Dropped(Id(3)), 6), Some(5));
    assert_eq!(items.remove_edge(ItemPortalGraphNode::Beginning, ItemPortalGraphNode::Dropped(Id(3))), Some(6));
    assert!(items.contains_node(ItemPortalGraphNode::Dropped(Id(3))));
    assert_eq!(items.edge_weight(ItemPortalGraphNode::Beginning, ItemPortalGraphNode::Dropped(Id(3))), None);
}

#[test]
fn jumping_back_into_ones_own_portal_is_an_infinite_loop() {
    // A player came out of portal 100 and jumps straight back into it.
    let mut g = PlayerPortalGraph::new();
    g.add_edge(Portal(Id(100)), End, Id(1));
    assert_eq!(close_portal(&mut g, Id(1), Id(100)), Err(GameError::Message("Created infinite loop")));
    assert_eq!(g.edge_weight(Portal(Id(100)), End), None);
    assert_eq!(g.edge_weight(Portal(Id(100)), Portal(Id(100))), Some(Id(1)));
}

#[test]
fn two_jumps_close_in_turn() {
    // Player 0 from the beginning; players 1 and 2 out of portals 101 and 102.
    let mut g = PlayerPortalGraph::new();
    g.add_edge(Beginning, End, Id(0));
    g.add_edge(Portal(Id(101)), End, Id(1));
    g.add_edge(Portal(Id(102)), End, Id(2));
    // Player 1 jumps into portal 102, then player 0 into portal 101.
    assert_eq!(close_portal(&mut g, Id(1), Id(102)), Ok(()));
    assert_eq!(g.edge_weight(Portal(Id(101)), Portal(Id(102))), Some(Id(1)));
    assert_eq!(close_portal(&mut g, Id(0), Id(101)), Ok(()));
    assert_eq!(g.edge_weight(Beginning, Portal(Id(101))), Some(Id(0)));
    assert_eq!(g.edge_weight(Beginning, End), None);
    assert_eq!(find_trail_from_origin(&g, Id(2)), Some(vec![Id(2), Id(1), Id(0)]));
}

#[test]
fn closing_finds_the_exit_edge_among_others_with_the_label() {
    let mut g = PlayerPortalGraph::new();
    g.add_edge(Portal(Id(300)), Portal(Id(301)), Id(5));
    g.add_edge(Beginning, End, Id(5));
    assert_eq!(close_portal(&mut g, Id(5), Id(302)), Err(GameError::Message("Created infinite loop")));
    assert_eq!(g.edge_weight(Beginning, End), None);
    assert_eq!(g.edge_weight(Beginning, Portal(Id(302))), Some(Id(5)));
    assert_eq!(g.edge_weight(Portal(Id(300)), Portal(Id(301))), Some(Id(5)));
}

#[test]
fn trail_ignores_crowded_nodes_off_its_walk() {
    let mut g = players();
    // Portal 500 has two ways in, but no trail walks through it.
    g.add_edge(Beginning, Portal(Id(500)), Id(7));
    g.add_edge(Portal(Id(400)), Portal(Id(500)), Id(8));
    assert_eq!(find_trail_from_origin(&g, Id(3)), Some(vec![Id(3), Id(2), Id(1)]));
}

#[test]
fn trail_walks_past_a_loop_on_a_node() {
    let mut g = players();
    g.add_edge(Portal(Id(100)), Portal(Id(100)), Id(9));
    assert_eq!(find_trail_from_origin(&g, Id(3)), Some(vec![Id(3), Id(2), Id(1)]));
}
