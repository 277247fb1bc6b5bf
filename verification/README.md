# gearbox_editor

The core of a visual editor for hierarchical state machines: which machines
are open, which menus show, how the nodes of a machine are drawn and ordered,
how transitions follow the edges of the world, how pins and connections are
discovered, and how the component catalogue is organised. Every function in
`src/` carries a contract that Verus proves.

## Layout

- `src/text.rs` — string search, splitting, trimming and ordering.
- `src/type_paths.rs` — reading event types out of listener and edge type paths.
- `src/entity_inspector.rs`, `src/entity_ui.rs` — the component catalogue and the inspector's lists.
- `src/hierarchy.rs` — the parent relation of states, with roots and depths.
- `src/node_kind.rs` — the leaf / parent / parallel kind machine of each state.
- `src/editor_state.rs`, `src/machine_menu.rs`, `src/context_menu.rs` — windows, menus and machine pickers.
- `src/node_editor.rs` — node shapes, drawing order and pointer input on nodes.
- `src/visual_transitions.rs` — the drawn transitions and their event pills.
- `src/pins.rs`, `src/ports.rs`, `src/graph_view.rs` — the graph view's pins, connections and ports.
- `src/demo_graph.rs` — the entity graph demo's nodes and wiring.
- `app/` — egui geometry, colours, popup menus and node boxes, ECS entity conversions
  and the serialisable demo data, around the library.
- `tests/` — scenarios for each part.
