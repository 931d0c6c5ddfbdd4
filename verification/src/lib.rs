pub mod cells;
pub mod double_map;
pub mod ecs;
pub mod counts;
pub mod error;
pub mod game_frame;
pub mod game_state;
pub mod graph;
pub mod graph_map;
pub mod inventory;
pub mod inventory_laws;
pub mod item;
pub mod item_flow;
pub mod listeners;
pub mod map_element;
pub mod merge;
pub mod plan;
pub mod portal_graph;
pub mod tree;
pub mod types;
