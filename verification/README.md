# time_game_lib

The rules of a puzzle game about time loops, verified with Verus.

Players step through a grid, open portals, and jump back into them to close a loop. A player
who comes out of a portal may *wish* for items it does not hold yet; when the loop closes, the
player who jumped in must have brought them. The library holds these parts of the game, each
stated and proved: inventories and how two of them merge when a loop closes, the history of
game frames as a zipped rose tree, the graphs that follow players and items through portals,
the maps of portals and dropped items, the entities of a frame with their event listeners,
and the handling of key presses and clicks. Applying a whole plan of moves to a frame is not
part of it.

## Layout

- `src/item.rs`, `src/error.rs`: items and the errors the game reports.
- `src/counts.rs`: counts of items per item.
- `src/cells.rs`: the 32 slots of an inventory; adding, taking and dropping items.
- `src/inventory.rs`: actual and hypothetical inventories; wishing and taking wishes back.
- `src/merge.rs`: merging the inventory of the player who jumps into a portal with the one of
  the player who came out of it.
- `src/inventory_laws.rs`: what merging, wishing and dropping promise together.
- `src/tree.rs`: rose trees and their zipper, which holds the history of frames.
- `src/graph.rs`: a labelled directed graph with a reachability search.
- `src/graph_map.rs`: the `petgraph` graph that the portal graphs are kept in, and what its
  methods are trusted to do.
- `src/portal_graph.rs`: the graph of players and portals, the graph of items, and wishing
  along a player's trail.
- `src/item_flow.rs`: what picking up, dropping and jumping add to the graph of an item, and
  the check that items still end up somewhere after a jump.
- `src/types.rs`, `src/double_map.rs`: identifiers, tiles, selections, portals, item drops,
  players, and a map found both by id and by tile.
- `src/ecs.rs`: the entities of a frame and their positions, inventories, movement, images
  and event listeners.
- `src/listeners.rs`, `src/map_element.rs`: event listeners held as data, and the elements of
  a level with the components and listeners each one gets.
- `src/game_frame.rs`: a moment of the game, and putting players and items into it, and
  wishing in it.
- `src/plan.rs`, `src/game_state.rs`: plans of moves, cycling among recorded futures, what a
  key press does, what a click does, and keeping the selection in line with the frame.

The tests under `tests/` run the library on concrete values.
