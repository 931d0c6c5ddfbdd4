use time_game_lib::graph::Graph;

fn chain() -> Graph<u32, u64> {
    // 1 -> 2 -> 3, and 4 on its own
    let mut g = Graph::new();
    g.insert_node(1, vec![], vec![]);
    g.insert_node(2, vec![(1, 10)], vec![]);
    g.insert_node(3, vec![(2, 20)], vec![]);
    g.insert_node(4, vec![], vec![]);
    g
}

#[test]
fn new_graph_is_empty() {
    let g: Graph<u32, u64> = Graph::new();
    assert!(g.nodes.is_empty());
    assert!(g.edges.is_empty());
}

#[test]
fn insert_node_records_incoming_and_outgoing_edges() {
    let mut g = chain();
    g.insert_node(5, vec![(3, 30), (1, 11)], vec![(1, 50), (4, 51)]);
    assert_eq!(g.nodes[&1], vec![10, 11]);
    assert_eq!(g.nodes[&3], vec![30]);
    assert_eq!(g.nodes[&5], vec![50, 51]);
    assert_eq!(g.edges[&30], 5);
    assert_eq!(g.edges[&11], 5);
    assert_eq!(g.edges[&50], 1);
    assert_eq!(g.edges[&51], 4);
    assert_eq!(g.edges.len(), 6);
    assert_eq!(g.nodes.len(), 5);
}

#[test]
fn neighbors_follow_edges_in_order() {
    let mut g = chain();
    g.insert_node(5, vec![(1, 11)], vec![(4, 50), (2, 51)]);
    let n1: Vec<u32> = g.get_node(1).neighbors().iter().map(|n| n.val).collect();
    assert_eq!(n1, vec![2, 5]);
    let n5: Vec<u32> = g.get_node(5).neighbors().iter().map(|n| n.val).collect();
    assert_eq!(n5, vec![4, 2]);
    assert!(g.get_node(3).neighbors().is_empty());
}

#[test]
fn get_node_keeps_value() {
    let g = chain();
    assert_eq!(g.get_node(3).val, 3);
}

#[test]
fn connected_to_follows_edges_forward_only() {
    let g = chain();
    assert!(g.get_node(1).connected_to(3));
    assert!(g.get_node(2).connected_to(3));
    assert!(!g.get_node(3).connected_to(1));
    assert!(!g.get_node(1).connected_to(4));
    assert!(!g.get_node(4).connected_to(1));
}

#[test]
fn every_node_is_connected_to_itself() {
    let g = chain();
    for n in 1..5 {
        assert!(g.get_node(n).connected_to(n));
    }
}

#[test]
fn connected_to_terminates_on_cycles() {
    let mut g = chain();
    // 5 -> 1 and 3 -> 5 closes the loop 1 -> 2 -> 3 -> 5 -> 1
    g.insert_node(5, vec![(3, 30)], vec![(1, 50)]);
    assert!(g.get_node(3).connected_to(2));
    assert!(g.get_node(5).connected_to(3));
    assert!(!g.get_node(5).connected_to(4));
    assert!(!g.get_node(1).connected_to(4));
}

#[test]
fn search_needs_only_the_edges_it_walks() {
    let mut g = chain();
    // Node 4 lists an edge that leads nowhere; searches from 1 never look at it.
    g.nodes.insert(4, vec![99]);
    assert!(g.get_node(1).connected_to(3));
    assert!(!g.get_node(1).connected_to(4));
    assert_eq!(g.get_node(2).neighbors().len(), 1);
}
